use muds::collections::{GenIndexMap, GenIndexSparseSet, GenIndexVecMap, IterableMap, VecMap};
use muds::{GenIndex, Index};

#[test]
fn insert_returns_previous_entry_of_any_generation() {
    let mut map = GenIndexMap::<i32, Index, VecMap<(Index, i32)>>::new();
    let idx = Index::from_raw_parts(1, 0);
    let idx2 = Index::from_raw_parts(1, 1);
    let idx3 = Index::from_raw_parts(0, 1);
    assert!(map.insert(idx, 123).is_none());
    assert_eq!(map.insert(idx2, 456).unwrap(), (idx, 123));
    assert!(map.insert(idx3, 123).is_none());
    assert_eq!(*map.get(&idx2).unwrap(), 456);
    assert!(map.get(&idx).is_none());
}

#[test]
fn get_remove_and_len() {
    let mut map = GenIndexVecMap::<i32, Index>::new();
    let idx = Index::from_raw_parts(2, 0);
    map.insert(idx, 123);
    assert_eq!(map.len(), 1);
    assert_eq!(map.get(&idx), Some(&123));
    assert_eq!(map.remove(&Index::from_raw_parts(2, 5)), None);
    assert_eq!(map.remove(&idx), Some(123));
    assert!(map.get(&idx).is_none());
    assert_eq!(map.len(), 0);
}

#[test]
fn get_mut_checks_generation() {
    let mut map = GenIndexSparseSet::<i32, Index>::new();
    let idx = Index::from_raw_parts(1, 0);
    map.insert(idx, 123);
    *map.get_mut(&idx).unwrap() += 1;
    assert!(map.get_mut(&Index::from_raw_parts(1, 1)).is_none());
    assert_eq!(map.remove(&idx), Some(124));
    assert!(map.get_mut(&idx).is_none());
}

#[test]
fn retain_and_clear() {
    let mut map = GenIndexVecMap::<i32, Index>::new();
    let idx1 = Index::from_raw_parts(1, 0);
    let idx2 = Index::from_raw_parts(0, 2);
    map.insert(idx1, 1);
    map.insert(idx2, 2);
    map.retain(|_, val| *val == 1);
    assert_eq!(*map.get(&idx1).unwrap(), 1);
    assert!(map.get(&idx2).is_none());
    map.clear();
    assert_eq!(map.len(), 0);
}

#[test]
fn entries_carry_full_keys() {
    let mut map = GenIndexVecMap::<usize, Index>::new();
    for i in 0..4 {
        map.insert(Index::from_raw_parts(i, 1), i * i);
    }
    let keys: Vec<Index> = map.entries().into_iter().map(|(k, _)| k).collect();
    assert_eq!(keys, (0..4).map(|i| Index::from_raw_parts(i, 1)).collect::<Vec<_>>());
    assert_eq!(map.map().len(), 4);
    assert!(map.contains_key(&Index::from_raw_parts(3, 1)));
}

#[test]
fn from_map_checks_placement() {
    let mut backing = VecMap::<(Index, i32)>::new();
    backing.insert(1, (Index::from_raw_parts(1, 3), 7));
    let map = GenIndexMap::from_map(backing).unwrap();
    assert_eq!(map.get(&Index::from_raw_parts(1, 3)), Some(&7));

    let mut misplaced = VecMap::<(Index, i32)>::new();
    misplaced.insert(0, (Index::from_raw_parts(2, 1), 7));
    assert!(GenIndexMap::from_map(misplaced).is_none());
}

#[test]
fn remove_drops_length_by_one() {
    let mut map = GenIndexSparseSet::<i32, Index>::new();
    let a = Index::from_raw_parts(0, 1);
    let b = Index::from_raw_parts(3, 1);
    map.insert(a, 1);
    map.insert(b, 2);
    assert_eq!(map.remove(&Index::from_raw_parts(3, 2)), None);
    assert_eq!(map.len(), 2);
    assert_eq!(map.remove(&b), Some(2));
    assert_eq!(map.len(), 1);
}

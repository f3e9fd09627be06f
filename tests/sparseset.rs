use muds::collections::{AssocMap, IterableMapMut, MapMut, SparseSet};

#[test]
fn sparseset_test_serialize() {
    let mut set = SparseSet::<&str>::with_capacity(3);
    set.insert(1, "a");
    set.insert(0, "b");
    set.insert(4, "c");

    let expected: serde_json::Value = serde_json::from_str(r#"[[1, "a"], [0, "b"], [4, "c"]]"#).unwrap();
    let json = serde_json::to_value(set.iter()).unwrap();
    assert_eq!(json, expected);
}

#[test]
fn sparseset_test_deserialize() {
    let entries: Vec<(usize, String)> = serde_json::from_str(r#"[[1, "a"], [3, "c"]]"#).unwrap();
    let set = SparseSet::<String>::from_entries(entries);

    assert_eq!(set.len(), 2);
    assert_eq!(set.get(&1).unwrap(), "a");
    assert_eq!(set.get(&3).unwrap(), "c");
}

#[test]
fn insert_overwrites_in_place() {
    let mut set = SparseSet::<i32>::new();
    assert!(set.insert(1, 123).is_none());
    assert_eq!(set.insert(1, 456), Some(123));
    assert_eq!(*set.get(&1).unwrap(), 456);
    assert_eq!(set.len(), 1);
}

#[test]
fn swap_remove_repairs_positions() {
    let mut set = SparseSet::<i32>::new();
    set.insert(1, 123);
    set.insert(0, 456);
    set.insert(7, 789);
    assert_eq!(set.remove(&2), None);
    assert_eq!(set.remove(&1), Some(123));
    assert_eq!(set.remove(&1), None);
    assert_eq!(set.get_item_index(&7), Some(0));
    assert_eq!(set.get_item_index(&0), Some(1));
    assert_eq!(*set.get(&7).unwrap(), 789);
    assert_eq!(*set.get(&0).unwrap(), 456);
    let keys: Vec<usize> = set.iter().iter().map(|(k, _)| *k).collect();
    assert_eq!(keys, vec![7, 0]);
}

#[test]
fn get_mut_changes_value() {
    let mut set = SparseSet::<i32>::new();
    set.insert(1, 123);
    *set.get_mut(&1).unwrap() += 1;
    assert_eq!(set.remove(&1), Some(124));
    assert!(set.get_mut(&1).is_none());
}

#[test]
fn retain_reprocesses_swapped_entry() {
    let mut set = SparseSet::<i32>::new();
    for (k, v) in [(0usize, 1), (1, 2), (2, 3), (3, 4)] {
        set.insert(k, v);
    }
    set.retain(|_, v| *v % 2 == 0);
    assert_eq!(set.len(), 2);
    assert!(set.get(&0).is_none());
    assert_eq!(*set.get(&1).unwrap(), 2);
    assert!(set.get(&2).is_none());
    assert_eq!(*set.get(&3).unwrap(), 4);
}

#[test]
fn drain_empties_the_set() {
    let mut set = SparseSet::<i32>::new();
    set.insert(2, 1);
    set.insert(3, 2);
    let drained = set.drain().into_vec();
    assert_eq!(drained, vec![(2, 1), (3, 2)]);
    assert!(set.get(&2).is_none());
    assert!(set.is_empty());
}

#[test]
fn sort_by_keeps_lookups() {
    let mut set = SparseSet::<i32>::new();
    set.insert(0, 2);
    set.insert(5, 3);
    set.insert(1, 1);
    set.sort_by(|(_, v1), (_, v2)| v1.cmp(v2));
    let values: Vec<i32> = set.iter().iter().map(|(_, v)| *v).collect();
    assert_eq!(values, vec![1, 2, 3]);
    assert_eq!(*set.get(&0).unwrap(), 2);
    assert_eq!(*set.get(&5).unwrap(), 3);
    assert_eq!(*set.get(&1).unwrap(), 1);
}

#[test]
fn trait_view_of_sparseset() {
    let mut set = <SparseSet<u8, u32> as MapMut>::empty();
    MapMut::insert(&mut set, 4, 1);
    assert!(AssocMap::contains_key(&set, &4));
    assert_eq!(MapMut::remove(&mut set, &4), Some(1));
    assert!(AssocMap::is_empty(&set));
}

#[test]
fn reserve_and_capacity() {
    let mut set = SparseSet::<()>::new();
    set.reserve(10);
    assert!(set.capacity() >= 10);
    set.insert(1, ());
    set.clear();
    assert_eq!(set.len(), 0);
}

#[test]
fn value_at_mut_follows_dense_order() {
    let mut set = SparseSet::<i32>::new();
    set.insert(9, 1);
    set.insert(4, 2);
    assert_eq!(set.span_len(), 2);
    *set.value_at_mut(1).unwrap() = 20;
    assert_eq!(*set.get(&4).unwrap(), 20);
    assert!(set.value_at_mut(2).is_none());
}

#[test]
fn sort_by_is_stable() {
    let mut set = SparseSet::<(u8, char)>::new();
    set.insert(0, (2, 'a'));
    set.insert(1, (1, 'b'));
    set.insert(2, (2, 'c'));
    set.insert(3, (1, 'd'));
    set.sort_by(|(_, v1), (_, v2)| v1.0.cmp(&v2.0));
    let order: Vec<char> = set.iter().iter().map(|(_, v)| v.1).collect();
    assert_eq!(order, vec!['b', 'd', 'a', 'c']);
    assert_eq!(set.get_item_index(&3), Some(1));
}

#[test]
fn insert_keeps_other_keys() {
    let mut set = SparseSet::<i32>::new();
    set.insert(5, 1);
    set.insert(2, 2);
    assert_eq!(set.insert(5, 3), Some(1));
    assert_eq!(*set.get(&2).unwrap(), 2);
    assert_eq!(set.len(), 2);
}

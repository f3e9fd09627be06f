use muds::collections::{GenIndexVecMap, MapJoin, SparseSet, VecMap};
use muds::{GenIndex, Index};

fn sides() -> (VecMap<&'static str>, SparseSet<i32>) {
    let mut left = VecMap::new();
    left.insert(1, "one");
    left.insert(2, "two");
    left.insert(3, "three");
    let mut right = SparseSet::new();
    right.insert(2, 20);
    right.insert(3, 30);
    right.insert(4, 40);
    (left, right)
}

#[test]
fn inner_join_yields_shared_keys() {
    let (left, right) = sides();
    let joined = left.map_join(&right).into_vec();
    let got: Vec<(usize, (i32, &str))> = joined.into_iter().map(|(k, (r, l))| (k, (*r, *l))).collect();
    assert_eq!(got, vec![(2, (20, "two")), (3, (30, "three"))]);
}

#[test]
fn left_join_keeps_every_left_key() {
    let (left, right) = sides();
    let joined = left.map_join_left(&right).into_vec();
    let got: Vec<(usize, (Option<i32>, &str))> = joined.into_iter().map(|(k, (r, l))| (k, (r.copied(), *l))).collect();
    assert_eq!(got, vec![(1, (None, "one")), (2, (Some(20), "two")), (3, (Some(30), "three"))]);
}

#[test]
fn left_exclusive_join_yields_unmatched_keys() {
    let (left, right) = sides();
    let joined = left.map_join_left_excl(&right);
    assert_eq!(joined.len(), 1);
    let got: Vec<(usize, &str)> = joined.into_vec().into_iter().map(|(k, l)| (k, *l)).collect();
    assert_eq!(got, vec![(1, "one")]);
}

#[test]
fn join_component_maps_by_entity_handle() {
    let mut pos = GenIndexVecMap::<(u32, u32), Index>::new();
    let mut vel = GenIndexVecMap::<(u32, u32), Index>::new();
    let e0 = Index::from_raw_parts(0, 1);
    let e1 = Index::from_raw_parts(1, 1);
    pos.insert(e0, (0, 1));
    pos.insert(e1, (2, 3));
    vel.insert(e1, (1, 1));
    vel.insert(Index::from_raw_parts(0, 2), (9, 9));
    let joined = pos.map_join(&vel).into_vec();
    assert_eq!(joined.len(), 1);
    assert_eq!(joined[0].0, e1);
    assert_eq!(*joined[0].1 .0, (1, 1));
}

#[test]
fn mutable_join_updates_matched_right_values() {
    let (left, mut right) = sides();
    left.map_join_mut(&mut right, |_, r, l| r + l.len() as i32);
    assert_eq!(*right.get(&2).unwrap(), 23);
    assert_eq!(*right.get(&3).unwrap(), 35);
    assert_eq!(*right.get(&4).unwrap(), 40);
}

#[test]
fn join_follows_left_order() {
    let mut l = SparseSet::<i32>::new();
    l.insert(3, 30);
    l.insert(1, 10);
    l.insert(2, 20);
    let mut r = SparseSet::<i32>::new();
    r.insert(2, 200);
    r.insert(3, 300);
    r.insert(4, 400);
    let keys: Vec<usize> = l.map_join(&r).into_vec().into_iter().map(|(k, _)| k).collect();
    assert_eq!(keys, vec![3, 2]);
    let left: Vec<usize> = l.map_join_left(&r).into_vec().into_iter().map(|(k, _)| k).collect();
    assert_eq!(left, vec![3, 1, 2]);
}

use muds::collections::{Arena, AssocMap, GenIndexArena, IterableMap, IterableMapMut};
use muds::{GenIndex, Index, IndexU64};

#[test]
fn arena_test_serialize() {
    let mut arena = GenIndexArena::<&str, Index>::with_capacity(3);
    let idx1 = arena.insert("a");
    arena.insert("b");
    arena.insert("c");
    arena.remove(&idx1);
    arena.insert("d");

    let expected: serde_json::Value = serde_json::from_str(r#"[[[0, 2], [1, 1], [2, 1]], ["d", "b", "c"]]"#).unwrap();
    let (slots, values) = arena.to_parts();
    let json = serde_json::to_value((slots, values)).unwrap();
    assert_eq!(json, expected);
}

#[test]
fn arena_test_deserialize() {
    let (slots, values): (Vec<(usize, usize)>, Vec<Option<String>>) =
        serde_json::from_str(r#"[[[0, 2], [1, 3], [5, 3], [3, 4]], ["d", "b", null, "c"]]"#).unwrap();
    let arena = GenIndexArena::<String, Index>::from_parts(slots, values).unwrap();

    assert_eq!(arena.len(), 3);
    assert_eq!(arena.get(&Index::from_raw_parts(1, 3)).unwrap(), "b");
    assert_eq!(arena.get(&Index::from_raw_parts(3, 4)).unwrap(), "c");
    assert_eq!(arena.get(&Index::from_raw_parts(0, 2)).unwrap(), "d");
}

#[test]
fn from_parts_rejects_mismatch() {
    let slots = vec![(0usize, 1usize), (5, 0)];
    let values = vec![Some(1u8), Some(2u8)];
    assert!(GenIndexArena::<u8, Index>::from_parts(slots, values).is_none());
}

#[test]
fn handle_finds_value_until_removed() {
    let mut arena = GenIndexArena::<i32, IndexU64>::new();
    let idx = arena.insert(123);
    assert_eq!(arena.get(&idx), Some(&123));
    assert!(arena.contains_key(&idx));
    assert_eq!(arena.remove(&idx), Some(123));
    assert!(arena.get(&idx).is_none());
    assert_eq!(arena.remove(&idx), None);
}

#[test]
fn stale_handle_misses_reused_slot() {
    let mut arena = GenIndexArena::<i32, Index>::new();
    let old = arena.insert(1);
    arena.remove(&old);
    let new = arena.insert(2);
    assert_eq!(old.index(), new.index());
    assert!(arena.get(&old).is_none());
    assert!(arena.get_mut(&old).is_none());
    assert_eq!(arena.remove(&old), None);
    assert_eq!(arena.get(&new), Some(&2));
}

#[test]
fn get_mut_then_remove() {
    let mut arena = GenIndexArena::<i32, IndexU64>::new();
    let idx = arena.insert(123);
    *arena.get_mut(&idx).unwrap() += 1;
    assert_eq!(arena.remove(&idx), Some(124));
    assert!(arena.get_mut(&idx).is_none());
}

#[test]
fn retain_frees_handles() {
    let mut arena = GenIndexArena::<i32, IndexU64>::new();
    let idx1 = arena.insert(1);
    let idx2 = arena.insert(2);
    arena.retain(|_, val| *val == 1);
    assert_eq!(*arena.get(&idx1).unwrap(), 1);
    assert!(arena.get(&idx2).is_none());
    assert_eq!(arena.len(), 1);
}

#[test]
fn iter_lists_live_values() {
    let mut arena = GenIndexArena::<usize, IndexU64>::new();
    let handles: Vec<IndexU64> = (0..5).map(|i| arena.insert(i * 10)).collect();
    arena.remove(&handles[2]);
    let values: Vec<usize> = arena.iter().into_iter().map(|(_, v)| *v).collect();
    assert_eq!(values, vec![0, 10, 30, 40]);
    assert_eq!(arena.entries().len(), 4);
}

#[test]
fn clear_empties_arena() {
    let mut arena = GenIndexArena::<(), IndexU64>::with_capacity(10);
    assert!(arena.capacity() >= 10);
    let a = arena.insert(());
    arena.insert(());
    arena.clear();
    assert!(arena.is_empty());
    assert!(arena.get(&a).is_none());
    arena.reserve(5);
}

#[test]
fn arena_trait_mints_keys() {
    let mut arena = GenIndexArena::<u8, IndexU64>::new();
    let k = Arena::insert(&mut arena, 7);
    assert_eq!(AssocMap::get(&arena, &k), Some(&7));
    assert_eq!(Arena::remove(&mut arena, &k), Some(7));
}

#[test]
fn iter_mut_replaces_live_values() {
    let mut arena = GenIndexArena::<i32, IndexU64>::new();
    let a = arena.insert(1);
    let b = arena.insert(2);
    arena.remove(&a);
    arena.iter_mut(|_, v| *v + 5);
    assert_eq!(arena.get(&b), Some(&7));
    assert!(arena.get(&a).is_none());
    assert_eq!(arena.len(), 1);
}

#[test]
fn value_at_mut_walks_positions() {
    let mut arena = GenIndexArena::<i32, IndexU64>::new();
    let a = arena.insert(1);
    let b = arena.insert(2);
    arena.remove(&a);
    assert_eq!(arena.span_len(), 2);
    assert!(arena.value_at_mut(0).is_none());
    *arena.value_at_mut(1).unwrap() = 9;
    assert_eq!(arena.get(&b), Some(&9));
}

#[test]
fn retain_and_iter_report_length() {
    let mut arena = GenIndexArena::<i32, IndexU64>::new();
    for i in 0..6 {
        arena.insert(i);
    }
    arena.retain(|_, v| *v >= 2);
    assert_eq!(arena.len(), 4);
    assert_eq!(arena.iter().len(), arena.len());
}

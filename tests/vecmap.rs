use muds::collections::{AssocMap, IterableMap, IterableMapMut, MapMut, VecMap};

#[test]
fn vecmap_test_serialize() {
    let mut set = VecMap::<&str>::with_capacity(3);
    set.insert(1, "a");
    set.insert(0, "b");
    set.insert(4, "c");

    let expected: serde_json::Value = serde_json::from_str(r#"["b", "a", null, null, "c"]"#).unwrap();
    let json = serde_json::to_value(set.slots()).unwrap();
    assert_eq!(json, expected);
}

#[test]
fn vecmap_test_deserialize() {
    let slots: Vec<Option<String>> = serde_json::from_str(r#"[null, "a", null, "c"]"#).unwrap();
    let set = VecMap::<String>::from_slots(slots).unwrap();

    assert_eq!(set.len(), 2);
    assert_eq!(set.get(&1).unwrap(), "a");
    assert_eq!(set.get(&3).unwrap(), "c");
}

#[test]
fn insert_replace_and_len() {
    let mut map = VecMap::<i32>::new();
    assert!(map.insert(1, 123).is_none());
    assert_eq!(map.insert(1, 456), Some(123));
    assert!(map.insert(0, 123).is_none());
    assert_eq!(*map.get(&1).unwrap(), 456);
    assert_eq!(map.len(), 2);
}

#[test]
fn remove_and_get_mut() {
    let mut map = VecMap::<i32>::new();
    map.insert(1, 123);
    *map.get_mut(&1).unwrap() += 1;
    assert_eq!(map.remove(&1), Some(124));
    assert_eq!(map.remove(&1), None);
    assert!(map.get_mut(&1).is_none());
    assert!(map.is_empty());
}

#[test]
fn retain_removes_rejected() {
    let mut map = VecMap::<i32>::new();
    map.insert(1, 1);
    map.insert(0, 2);
    map.retain(|_, val| *val == 1);
    assert_eq!(*map.get(&1).unwrap(), 1);
    assert!(map.get(&0).is_none());
    assert_eq!(map.len(), 1);
}

#[test]
fn iter_follows_key_order() {
    let mut map = VecMap::<usize>::new();
    for i in [3usize, 0, 7, 5] {
        map.insert(i, i * i);
    }
    let keys: Vec<usize> = map.iter().into_iter().map(|(k, _)| k).collect();
    assert_eq!(keys, vec![0, 3, 5, 7]);
    let values: Vec<usize> = map.iter().into_iter().map(|(_, v)| *v).collect();
    assert_eq!(values, vec![0, 9, 25, 49]);
}

#[test]
fn iter_mut_updates_each_value() {
    let mut map = VecMap::<usize>::new();
    for i in 0..10 {
        map.insert(i, i * i);
    }
    map.iter_mut(|_, v| *v + 5);
    assert_eq!(*map.get(&3).unwrap(), 14);
    assert_eq!(map.len(), 10);
}

#[test]
fn clear_and_capacity() {
    let mut map = VecMap::<()>::with_capacity(10);
    assert!(map.capacity() >= 10);
    map.insert(1, ());
    map.clear();
    assert_eq!(map.len(), 0);
    map.reserve(20);
    assert!(map.capacity() >= 20);
}

#[test]
fn trait_view_of_vecmap() {
    let mut map = <VecMap<u8, u32> as MapMut>::empty();
    MapMut::insert(&mut map, 2, 9);
    assert!(AssocMap::contains_key(&map, &2));
    assert!(!AssocMap::contains_key(&map, &1));
    assert_eq!(AssocMap::len(&map), 1);
    assert_eq!(map.entries().len(), 1);
}

#[test]
fn from_slots_rejects_too_long() {
    let slots: Vec<Option<u8>> = vec![None; 300];
    assert!(VecMap::<u8, u8>::from_slots(slots).is_none());
    let ok: Vec<Option<u8>> = vec![Some(1); 256];
    assert_eq!(VecMap::<u8, u8>::from_slots(ok).unwrap().len(), 256);
}

#[test]
fn value_at_mut_skips_empty_slots() {
    let mut map = VecMap::<i32>::new();
    map.insert(2, 5);
    assert_eq!(map.span_len(), 3);
    assert!(map.value_at_mut(0).is_none());
    *map.value_at_mut(2).unwrap() = 6;
    assert_eq!(*map.get(&2).unwrap(), 6);
}

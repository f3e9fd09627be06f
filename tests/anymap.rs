use muds::collections::AnyMap;

#[test]
fn insert_get_by_type() {
    let mut map = AnyMap::<i64>::new();
    assert!(map.is_empty());
    assert!(map.insert::<i32>(123).is_none());
    assert!(map.contains::<i32>());
    assert_eq!(*map.get::<i32>().unwrap(), 123);
    assert!(map.get::<u32>().is_none());
    assert_eq!(map.insert::<i32>(456).unwrap(), 123);
    assert_eq!(map.len(), 1);
}

#[test]
fn get_mut_remove_clear() {
    let mut map = AnyMap::<i64>::new();
    map.insert::<i32>(123);
    map.insert::<u32>(7);
    *map.get_mut::<i32>().unwrap() = 456;
    assert_eq!(*map.get::<i32>().unwrap(), 456);
    assert_eq!(map.remove::<i32>().unwrap(), 456);
    assert!(map.remove::<i32>().is_none());
    assert_eq!(map.iter().len(), 1);
    map.clear();
    assert_eq!(map.len(), 0);
}

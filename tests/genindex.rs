use muds::{GenIndex, Index, IndexU64};

#[test]
fn test_index_serialize() {
    let index: Index = Index::from_raw_parts(123, 456);
    let expected: serde_json::Value = serde_json::from_str("[123, 456]").unwrap();
    let json = serde_json::to_value(<(usize, usize)>::from(index)).unwrap();
    assert_eq!(json, expected);
}

#[test]
fn test_index_deserialize() {
    let expected = Index::from_raw_parts(123, 456);
    let parts: (usize, usize) = serde_json::from_str("[123, 456]").unwrap();
    let index: Index = Index::from(parts);
    assert_eq!(index, expected);
}

#[test]
fn null_handle_is_zero_zero() {
    let n: Index<u32, u32> = Index::null();
    assert!(n.is_null());
    assert_eq!((n.index(), n.generation()), (0, 0));
    assert!(!Index::<u32, u32>::from_raw_parts(0, 1).is_null());
}

#[test]
fn same_as_compares_both_parts() {
    let a = IndexU64::from_raw_parts(5, 1);
    assert!(a.same_as(&IndexU64::from_raw_parts(5, 1)));
    assert!(!a.same_as(&IndexU64::from_raw_parts(5, 2)));
    assert!(!a.same_as(&IndexU64::from_raw_parts(4, 1)));
}

#[test]
fn max_generation_of_each_kind() {
    assert_eq!(Index::<u32, u8>::max_generation(), 255);
    assert_eq!(IndexU64::max_generation(), u32::MAX);
    let top = IndexU64::from_raw_parts(u32::MAX, u32::MAX);
    assert_eq!((top.index(), top.generation()), (u32::MAX, u32::MAX));
}

#[derive(Debug)]
struct TestType;

#[test]
fn test_typedindex_serialize() {
    let index = muds::TypedIndex::<TestType, Index>::from_raw_parts(123, 456);
    let expected: serde_json::Value = serde_json::from_str("[123, 456]").unwrap();
    let json = serde_json::to_value(<(usize, usize)>::from(index.to_index())).unwrap();
    assert_eq!(json, expected);
}

#[test]
fn test_typedindex_deserialize() {
    let expected = muds::TypedIndex::<TestType, Index>::from_raw_parts(123, 456);
    let parts: (usize, usize) = serde_json::from_str("[123, 456]").unwrap();
    let index = muds::TypedIndex::<TestType, Index>::from_index(Index::from(parts));
    assert_eq!(index.to_index(), expected.to_index());
    assert_eq!((index.index(), index.generation()), (123, 456));
}

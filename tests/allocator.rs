use muds::collections::GenIndexAllocator;
use muds::{GenIndex, Index, IndexU64};

#[test]
fn allocator_test_serialize() {
    let mut allocator = GenIndexAllocator::<Index>::with_capacity(3);
    let idx0 = allocator.create();
    allocator.create();
    allocator.remove(&idx0);
    allocator.create();

    let expected: serde_json::Value = serde_json::from_str("[[0, 2], [1, 1]]").unwrap();
    let json = serde_json::to_value(allocator.to_slots()).unwrap();
    assert_eq!(json, expected);
}

#[test]
fn allocator_test_deserialize() {
    let slots: Vec<(usize, usize)> = serde_json::from_str("[[0, 2], [1, 1], [2, 1], [100, 0]]").unwrap();
    let allocator = GenIndexAllocator::<Index>::from_slots(slots).unwrap();

    assert_eq!(allocator.len(), 3);
    assert!(allocator.contains(&Index::from_raw_parts(0, 2)));
    assert!(allocator.contains(&Index::from_raw_parts(1, 1)));
    assert!(allocator.contains(&Index::from_raw_parts(2, 1)));
}

#[test]
fn create_contains_remove() {
    let mut allocator = GenIndexAllocator::<IndexU64>::new();
    let i = allocator.create();
    assert!(allocator.contains(&i));
    assert!(allocator.remove(&i));
    assert!(!allocator.remove(&i));
    assert!(!allocator.contains(&i));
    assert!(allocator.is_empty());
}

#[test]
fn slot_reuse_bumps_generation() {
    let mut allocator = GenIndexAllocator::<Index>::new();
    let a = allocator.create();
    assert_eq!((a.index(), a.generation()), (0, 1));
    allocator.remove(&a);
    let b = allocator.create();
    assert_eq!((b.index(), b.generation()), (0, 2));
    assert!(!allocator.contains(&a));
    assert!(allocator.contains(&b));
}

#[test]
fn stale_handle_never_comes_back_early() {
    let mut allocator = GenIndexAllocator::<Index<u32, u8>>::new();
    let first = allocator.create();
    allocator.remove(&first);
    for _ in 0..200 {
        let h = allocator.create();
        assert!(!allocator.contains(&first));
        assert!(allocator.remove(&h));
    }
    assert!(!allocator.contains(&first));
}

#[test]
fn generation_wraps_skipping_null() {
    let mut allocator = GenIndexAllocator::<Index<u32, u8>>::new();
    let mut h = allocator.create();
    for _ in 0..254 {
        allocator.remove(&h);
        h = allocator.create();
    }
    assert_eq!((h.index(), h.generation()), (0, 255));
    allocator.remove(&h);
    let wrapped = allocator.create();
    assert_eq!((wrapped.index(), wrapped.generation()), (0, 1));
    assert!(!wrapped.is_null());
}

#[test]
fn get_by_raw_index() {
    let mut allocator = GenIndexAllocator::<IndexU64>::new();
    let i = allocator.create();
    assert_eq!(*allocator.get(&i.index()).unwrap(), i);
    assert!(allocator.get(&7).is_none());
}

#[test]
fn retain_keeps_only_accepted() {
    let mut allocator = GenIndexAllocator::<IndexU64>::new();
    let idx1 = allocator.create();
    let idx2 = allocator.create();
    allocator.retain(|idx| *idx == idx1);
    assert!(allocator.contains(&idx1));
    assert!(!allocator.contains(&idx2));
    assert_eq!(allocator.len(), 1);
}

#[test]
fn clear_frees_everything_in_order() {
    let mut allocator = GenIndexAllocator::<Index>::new();
    let a = allocator.create();
    let b = allocator.create();
    allocator.clear();
    assert!(allocator.is_empty());
    assert!(!allocator.contains(&a));
    assert!(!allocator.contains(&b));
    let c = allocator.create();
    assert_eq!((c.index(), c.generation()), (0, 2));
    let d = allocator.create();
    assert_eq!((d.index(), d.generation()), (1, 2));
}

#[test]
fn removed_first_slot_is_not_live() {
    let mut allocator = GenIndexAllocator::<Index>::new();
    let a = allocator.create();
    let _b = allocator.create();
    assert!(allocator.remove(&a));
    assert!(!allocator.contains(&a));
    assert_eq!(allocator.len(), 1);
}

#[test]
fn round_trip_keeps_live_handles() {
    let mut allocator = GenIndexAllocator::<Index>::new();
    let a = allocator.create();
    let b = allocator.create();
    allocator.remove(&a);
    let c = allocator.create();
    let restored = GenIndexAllocator::<Index>::from_slots(allocator.to_slots()).unwrap();
    for h in [a, b, c, Index::from_raw_parts(2, 1)] {
        assert_eq!(restored.contains(&h), allocator.contains(&h));
    }
}

#[test]
fn index_u64_packs_parts() {
    let h = IndexU64::from_raw_parts(123, 456);
    assert_eq!(h.index(), 123);
    assert_eq!(h.generation(), 456);
    assert!(IndexU64::null().is_null());
    assert_eq!(IndexU64::max_generation(), u32::MAX);
}

#[test]
fn from_slots_rejects_positions_beyond_index_type() {
    let slots: Vec<(u8, u8)> = (0..257).map(|i| ((i % 256) as u8, 1u8)).collect();
    assert!(GenIndexAllocator::<Index<u8, u8>>::from_slots(slots).is_none());
    let fits: Vec<(u8, u8)> = (0..256).map(|i| (i as u8, 1u8)).collect();
    assert_eq!(GenIndexAllocator::<Index<u8, u8>>::from_slots(fits).unwrap().len(), 256);
}

#[test]
fn creates_after_clear_ascend() {
    let mut allocator = GenIndexAllocator::<Index>::new();
    for _ in 0..4 {
        allocator.create();
    }
    allocator.clear();
    let raws: Vec<usize> = (0..4).map(|_| allocator.create().index()).collect();
    assert_eq!(raws, vec![0, 1, 2, 3]);
    assert_eq!(allocator.create().index(), 4);
}

#[test]
fn loaded_allocator_has_right_len() {
    let mut a = GenIndexAllocator::<Index>::new();
    let i0 = a.create();
    a.create();
    a.remove(&i0);
    a.create();
    let b = GenIndexAllocator::<Index>::from_slots(a.to_slots()).unwrap();
    assert_eq!(b.len(), 2);
    assert!(b.contains(&Index::from_raw_parts(0, 2)));
    assert!(b.contains(&Index::from_raw_parts(1, 1)));
    assert!(!b.contains(&Index::from_raw_parts(0, 1)));
}

#[test]
fn retain_len_counts_kept() {
    let mut allocator = GenIndexAllocator::<IndexU64>::new();
    let handles: Vec<IndexU64> = (0..6).map(|_| allocator.create()).collect();
    allocator.retain(|h| h.index() % 2 == 0);
    assert_eq!(allocator.len(), 3);
    assert!(allocator.contains(&handles[4]));
    assert!(!allocator.contains(&handles[5]));
}

use muds::UnsignedNum;

#[test]
fn conversions_fit_or_fail() {
    assert_eq!(<u8 as UnsignedNum>::from_usize(255), Some(255u8));
    assert_eq!(<u8 as UnsignedNum>::from_usize(256), None);
    assert_eq!(UnsignedNum::to_usize(&300u16), Some(300usize));
    assert_eq!(<u32 as UnsignedNum>::max_value(), u32::MAX);
    assert_eq!(UnsignedNum::add_one(&41u64), 42);
    assert!(UnsignedNum::lt_num(&1usize, &2usize));
    assert!(UnsignedNum::eq_num(&<u16 as UnsignedNum>::zero(), &0));
    assert_eq!(<u8 as UnsignedNum>::one(), 1);
}

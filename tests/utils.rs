use yjit::utils::IntoUsize;

#[test]
fn min_max_preserved_after_cast_to_usize() {
    let min: usize = u64::MIN.as_usize();
    assert_eq!(min, u64::MIN.try_into().unwrap());
    let max: usize = u64::MAX.as_usize();
    assert_eq!(max, u64::MAX.try_into().unwrap());

    let min: usize = u32::MIN.as_usize();
    assert_eq!(min, u32::MIN.try_into().unwrap());
    let max: usize = u32::MAX.as_usize();
    assert_eq!(max, u32::MAX.try_into().unwrap());
}

#[test]
fn small_widths_keep_their_value() {
    assert_eq!(u16::MAX.as_usize(), 65535);
    assert_eq!(200u8.as_usize(), 200);
}

use count_min_sketch::counter::add_wrapping;

#[test]
fn counts_that_fit_add_up() {
    assert_eq!(add_wrapping(0, 0), 0);
    assert_eq!(add_wrapping(5, 7), 12);
    assert_eq!(add_wrapping(u32::MAX - 1, 1), u32::MAX);
    assert_eq!(add_wrapping(0, u32::MAX), u32::MAX);
}

#[test]
fn a_full_counter_wraps_to_zero() {
    assert_eq!(add_wrapping(u32::MAX, 1), 0);
}

#[test]
fn a_sum_beyond_the_range_loses_the_range() {
    assert_eq!(add_wrapping(u32::MAX, 2), 1);
    assert_eq!(add_wrapping(u32::MAX, u32::MAX), u32::MAX - 1);
    assert_eq!(add_wrapping(0x8000_0000, 0x8000_0000), 0);
    assert_eq!(add_wrapping(0xffff_0000, 0x0002_0005), 0x0001_0005);
}

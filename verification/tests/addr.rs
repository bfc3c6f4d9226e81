use blog_os::addr::{is_canonical, LOWER_HALF_END, UPPER_HALF_START};

#[test]
fn an_address_is_canonical_in_the_two_halves_only() {
    assert!(is_canonical(0));
    assert!(is_canonical(0x4000_0000));
    assert!(is_canonical(LOWER_HALF_END - 1));
    assert!(!is_canonical(LOWER_HALF_END));
    assert!(!is_canonical(0x1234_5678_9abc_def0));
    assert!(!is_canonical(UPPER_HALF_START - 1));
    assert!(is_canonical(UPPER_HALF_START));
    assert!(is_canonical(u64::MAX));
}

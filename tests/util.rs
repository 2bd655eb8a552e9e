use slimfilter::next_multiple_of;

#[test]
fn test_next_multiple_of() {
    assert_eq!(0, next_multiple_of(0, 1));
    assert_eq!(0, next_multiple_of(0, 5));

    assert_eq!(1, next_multiple_of(1, 1));
    assert_eq!(5, next_multiple_of(1, 5));
    assert_eq!(10, next_multiple_of(6, 5));
}

#[test]
fn next_multiple_of_exact_and_large() {
    assert_eq!(64, next_multiple_of(64, 64));
    assert_eq!(128, next_multiple_of(65, 64));
    assert_eq!(u64::MAX - 63, next_multiple_of(u64::MAX - 126, 64));
}

use hashjoin::utils::get_owned_range;

#[test]
fn test_get_owned_range_with_equal_divisions() {
    assert_eq!(get_owned_range(12, 3, 0), (0, 4));
    assert_eq!(get_owned_range(12, 3, 1), (4, 8));
    assert_eq!(get_owned_range(12, 3, 2), (8, 12));
}

#[test]
fn test_get_owned_range_with_unequal_divisions() {
    assert_eq!(get_owned_range(10, 3, 0), (0, 4));
    assert_eq!(get_owned_range(10, 3, 1), (4, 7));
    assert_eq!(get_owned_range(10, 3, 2), (7, 10));
}

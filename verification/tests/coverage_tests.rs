use walkthrough::coverage::format_ranges;

#[test]
fn format_ranges_groups_consecutive() {
    assert_eq!(format_ranges(&[1, 2, 3, 5, 7, 8, 9, 15]), "1-3,5,7-9,15");
    assert_eq!(format_ranges(&[42]), "42");
    assert_eq!(format_ranges(&[1, 3, 5]), "1,3,5");
}

#[test]
fn format_ranges_empty_is_empty() {
    assert_eq!(format_ranges(&[]), "");
}

#[test]
fn format_ranges_repeated_positions_join_a_range() {
    assert_eq!(format_ranges(&[4, 4, 5]), "4-5");
}

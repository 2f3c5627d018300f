use voxel_ray_traversal::formatting::format_with_commas;

#[test]
fn formats_small_numbers_without_separator() {
    assert_eq!(format_with_commas(0), "0");
    assert_eq!(format_with_commas(7), "7");
    assert_eq!(format_with_commas(999), "999");
}

#[test]
fn formats_thousands_with_commas() {
    assert_eq!(format_with_commas(1000), "1,000");
    assert_eq!(format_with_commas(12345), "12,345");
    assert_eq!(format_with_commas(1234567), "1,234,567");
    assert_eq!(format_with_commas(100000), "100,000");
}

#[test]
fn formats_largest_value() {
    assert_eq!(format_with_commas(u64::MAX), "18,446,744,073,709,551,615");
}

#[test]
fn groups_are_one_to_three_digits_then_threes() {
    for n in [0u64, 5, 42, 999, 1000, 65536, 1234567, 12345678, 999999999, u64::MAX] {
        let s = format_with_commas(n);
        assert_eq!(s.replace(',', ""), n.to_string());
        let groups: Vec<&str> = s.split(',').collect();
        assert!((1..=3).contains(&groups[0].len()));
        assert!(groups[1..].iter().all(|g| g.len() == 3));
    }
}

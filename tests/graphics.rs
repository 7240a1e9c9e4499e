use tanks::graphics::map_range;

#[test]
fn test_map_range() {
    assert_eq!(map_range(10, 0, 10, 0, 100), 100);

    assert_eq!(map_range(30, 0, 10, 0, 100), 300);

    assert_eq!(map_range(-10, 0, 10, 0, 100), -100);

    map_range(-5, 0, 10, 0, 100);
}

#[test]
fn map_range_rounds_toward_zero() {
    assert_eq!(map_range(-5, 0, 10, 0, 100), 0);
    assert_eq!(map_range(20, 0, 10, 0, 100), 200);
    assert_eq!(map_range(15, 10, 20, 0, 100), 0);
    assert_eq!(map_range(-25, 0, -10, 0, 100), 200);
}

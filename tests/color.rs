use tanks::color::{hex_channels, ColorschemeData, ColorschemeSet};
use tanks::markers::ColorKey;

#[test]
fn scheme_lookup_and_cycling() {
    let mut set = ColorschemeSet::new();
    set.add_current_scheme("dark".to_string());
    set.add_scheme("light".to_string());
    set.add_scheme("mono".to_string());
    assert_eq!(set.get_current(), 0);
    assert_eq!(set.get_scheme("light"), Some(1));
    assert_eq!(set.get_scheme("neon"), None);
    assert!(set.set_current("mono"));
    assert_eq!(set.get_current(), 2);
    assert!(!set.set_current("neon"));
    assert_eq!(set.get_current(), 2);
    set.cycle_schemes();
    assert_eq!(set.get_current(), 0);
    set.cycle_schemes();
    assert_eq!(set.get_current(), 1);
}

#[test]
fn colors_by_key() {
    let data = ColorschemeData { background: 1, text: 2, walls: 3, p1: 4, p2: 5, p3: 6, p4: 7 };
    assert_eq!(data.get_by_key(&ColorKey::Walls), 3);
    assert_eq!(data.get_by_key(&ColorKey::P4), 7);
    assert_eq!(hex_channels(0xff8000), (0xff, 0x80, 0x00));
    assert_eq!(hex_channels(0x123456), (0x12, 0x34, 0x56));
}

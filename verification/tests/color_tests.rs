use hyleus::color::Color;

#[test]
fn channels_are_packed_red_first() {
    let c = Color::new(0x12, 0x34, 0x56, 0x78);
    assert_eq!(c.packed, 0x1234_5678);
    assert_eq!((c.r(), c.g(), c.b(), c.a()), (0x12, 0x34, 0x56, 0x78));
}

#[test]
fn rgb_is_opaque() {
    let c = Color::rgb(1, 2, 3);
    assert_eq!(c.packed, 0x0102_03FF);
    assert_eq!(c.a(), 255);
}

#[test]
fn getters_read_any_packed_value() {
    let c = Color { packed: 0xFFEE_DDCC };
    assert_eq!((c.r(), c.g(), c.b(), c.a()), (0xFF, 0xEE, 0xDD, 0xCC));
    let again = Color::new(c.r(), c.g(), c.b(), c.a());
    assert_eq!(again.packed, c.packed);
}

use grub_split::text::{decimal_string, hex_string};

#[test]
fn numbers_in_decimal() {
    assert_eq!(decimal_string(0), "0");
    assert_eq!(decimal_string(7), "7");
    assert_eq!(decimal_string(10), "10");
    assert_eq!(decimal_string(1_234_567_890), "1234567890");
    assert_eq!(decimal_string(usize::MAX), usize::MAX.to_string());
}

#[test]
fn numbers_in_hexadecimal() {
    assert_eq!(hex_string(0), "0x0");
    assert_eq!(hex_string(15), "0xf");
    assert_eq!(hex_string(16), "0x10");
    assert_eq!(hex_string(0xdead_beef), "0xdeadbeef");
    assert_eq!(hex_string(usize::MAX), format!("{:#x}", usize::MAX));
}

#[test]
fn a_grid_of_numbers_agrees_with_the_standard_rendering() {
    for value in (0..100_000usize).step_by(37) {
        assert_eq!(decimal_string(value), value.to_string());
        assert_eq!(hex_string(value), format!("{:#x}", value));
    }
}

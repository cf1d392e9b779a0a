use grub_split::memory::{Address, AddressRange, VariableLengthAddressRange};

#[test]
fn new_and_raw_round_trip() {
    assert_eq!(Address::new(0x1234).raw(), 0x1234);
    assert_eq!(Address::new(0).raw(), 0);
    assert_eq!(Address::new(usize::MAX).raw(), usize::MAX);
}

#[test]
fn align_forward_rounds_up_to_the_alignment() {
    assert_eq!(Address::new(0).align_forward(8).raw(), 0);
    assert_eq!(Address::new(1).align_forward(8).raw(), 8);
    assert_eq!(Address::new(8).align_forward(8).raw(), 8);
    assert_eq!(Address::new(9).align_forward(4).raw(), 12);
    assert_eq!(Address::new(13).align_forward(1).raw(), 13);
    assert_eq!(Address::new(0x1001).align_forward(0x1000).raw(), 0x2000);
}

#[test]
fn align_forward_bounds_hold_on_a_grid() {
    for shift in 0..12 {
        let alignment = 1usize << shift;
        for x in 0..300usize {
            let aligned = Address::new(x).align_forward(alignment).raw();
            assert!(aligned >= x);
            assert_eq!(aligned % alignment, 0);
            assert!(aligned - x < alignment);
        }
    }
}

#[test]
fn checked_align_forward_reports_overflow() {
    assert_eq!(Address::new(usize::MAX).checked_align_forward(8), None);
    assert_eq!(Address::new(usize::MAX - 7).checked_align_forward(8), Some(Address::new(usize::MAX - 7)));
    assert_eq!(Address::new(usize::MAX).checked_align_forward(1), Some(Address::new(usize::MAX)));
    assert_eq!(Address::new(17).checked_align_forward(16), Some(Address::new(32)));
}

#[test]
fn add_const_moves_forward() {
    assert_eq!(Address::new(10).add_const(5), Address::new(15));
    assert_eq!(Address::new(10).add_const(0), Address::new(10));
}

#[test]
fn checked_add_reports_overflow() {
    assert_eq!(Address::new(10).checked_add(5), Some(Address::new(15)));
    assert_eq!(Address::new(usize::MAX).checked_add(0), Some(Address::new(usize::MAX)));
    assert_eq!(Address::new(usize::MAX).checked_add(1), None);
    assert_eq!(Address::new(usize::MAX - 1).checked_add(2), None);
}

#[test]
fn fixed_range_contains_only_ranges_within_it() {
    let outer = AddressRange::<16> { start: Address::new(100) };
    assert!(outer.contains(AddressRange::<16> { start: Address::new(100) }));
    assert!(outer.contains(AddressRange::<4> { start: Address::new(112) }));
    assert!(!outer.contains(AddressRange::<4> { start: Address::new(113) }));
    assert!(!outer.contains(AddressRange::<4> { start: Address::new(99) }));
    assert!(!outer.contains(AddressRange::<17> { start: Address::new(100) }));
    assert!(outer.contains(AddressRange::<0> { start: Address::new(116) }));
}

#[test]
fn variable_range_contains_only_ranges_within_it() {
    let outer = VariableLengthAddressRange { start: Address::new(100), num_bytes: 16 };
    assert!(outer.contains(outer));
    assert!(outer.contains(VariableLengthAddressRange { start: Address::new(110), num_bytes: 6 }));
    assert!(!outer.contains(VariableLengthAddressRange { start: Address::new(110), num_bytes: 7 }));
    assert!(!outer.contains(VariableLengthAddressRange { start: Address::new(99), num_bytes: 1 }));
}

#[test]
fn ranges_at_the_top_of_the_address_space_do_not_overflow() {
    let outer = VariableLengthAddressRange { start: Address::new(usize::MAX - 3), num_bytes: 10 };
    let inner = VariableLengthAddressRange { start: Address::new(usize::MAX - 1), num_bytes: 8 };
    assert!(outer.contains(inner));
    assert!(!inner.contains(outer));
}

#[test]
fn addresses_are_shown_in_hexadecimal() {
    assert_eq!(Address::new(0).to_string(), "0x0");
    assert_eq!(Address::new(0x10).to_string(), "0x10");
    assert_eq!(Address::new(0xdead_beef).to_string(), "0xdeadbeef");
    assert_eq!(Address::new(usize::MAX).to_string(), "0xffffffffffffffff");
}

#[test]
fn the_plus_sign_moves_an_address_forward() {
    assert_eq!(Address::new(0x1000) + 0x10, Address::new(0x1010));
    assert_eq!(Address::new(7) + 0, Address::new(7));
}

use grub_split::deserialize::layout::{alignment, field_offsets, num_bytes, FieldLayout};

fn field(num_bytes: usize, alignment: usize) -> FieldLayout {
    FieldLayout { num_bytes, alignment }
}

#[test]
fn a_structure_that_mixes_all_four_widths() {
    // u8, u16, u8, u32, u8, u64, u16
    let fields = vec![field(1, 1), field(2, 2), field(1, 1), field(4, 4), field(1, 1), field(8, 8), field(2, 2)];
    assert_eq!(field_offsets(&fields), Some(vec![0, 2, 4, 8, 12, 16, 24]));
    assert_eq!(num_bytes(&fields), Some(26));
    assert_eq!(alignment(&fields), 8);
}

#[test]
fn an_empty_structure_has_no_size_and_alignment_one() {
    let fields = Vec::new();
    assert_eq!(num_bytes(&fields), Some(0));
    assert_eq!(alignment(&fields), 1);
    assert_eq!(field_offsets(&fields), Some(Vec::new()));
}

#[test]
fn fields_keep_their_declared_order() {
    let small_first = vec![field(1, 1), field(8, 8)];
    let large_first = vec![field(8, 8), field(1, 1)];
    assert_eq!(num_bytes(&small_first), Some(16));
    assert_eq!(num_bytes(&large_first), Some(9));
    assert_eq!(field_offsets(&small_first), Some(vec![0, 8]));
    assert_eq!(field_offsets(&large_first), Some(vec![0, 8]));
    assert_eq!(alignment(&small_first), 8);
    assert_eq!(alignment(&large_first), 8);
}

#[test]
fn the_alignment_is_the_largest_among_the_fields() {
    assert_eq!(alignment(&vec![field(1, 1), field(1, 1)]), 1);
    assert_eq!(alignment(&vec![field(2, 2), field(4, 4), field(2, 2)]), 4);
    assert_eq!(alignment(&vec![field(0, 8)]), 8);
}

#[test]
fn a_layout_that_does_not_fit_has_no_size() {
    let fields = vec![field(usize::MAX, 1), field(1, 1)];
    assert_eq!(num_bytes(&fields), None);
    assert_eq!(field_offsets(&fields), Some(vec![0, usize::MAX]));
    let fields = vec![field(usize::MAX, 1), field(1, 2)];
    assert_eq!(num_bytes(&fields), None);
    assert_eq!(field_offsets(&fields), None);
}

#[test]
fn a_field_of_no_size_still_asks_for_its_alignment() {
    let fields = vec![field(2, 2), field(0, 8), field(1, 1)];
    assert_eq!(field_offsets(&fields), Some(vec![0, 8, 8]));
    assert_eq!(num_bytes(&fields), Some(9));
}

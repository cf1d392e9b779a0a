use grub_split::deserialize::arrayptr::ArrayPtr;
use grub_split::deserialize::cursor::{field_context, FieldCursor};
use grub_split::deserialize::layout::FieldLayout;
use grub_split::deserialize::linkedlist::LinkedList;
use grub_split::deserialize::string::{read_c_string, text_from_bytes, MAX_STRING_LENGTH};
use grub_split::deserialize::{
    Deserialize, Eager, Error, LazyDeserialize, PostSizedArray, Ptr, ZeroLengthArray,
};
use grub_split::memory::reader::History;
use grub_split::memory::{Address, AddressRange, MemoryReader, VariableLengthAddressRange};
use std::io;

struct Memory {
    base: usize,
    bytes: Vec<u8>,
    requests: Vec<(usize, usize)>,
}

impl Memory {
    fn new(base: usize, bytes: Vec<u8>) -> Self {
        Memory { base, bytes, requests: Vec::new() }
    }

    fn zeroed(base: usize, len: usize) -> Self {
        Memory::new(base, vec![0; len])
    }

    fn put(&mut self, at: usize, bytes: &[u8]) {
        let from = at - self.base;
        self.bytes[from..from + bytes.len()].copy_from_slice(bytes);
    }

    fn put_usize(&mut self, at: usize, value: usize) {
        self.put(at, &value.to_ne_bytes());
    }
}

impl MemoryReader for Memory {
    fn history(&self) -> History {
        unreachable!()
    }

    fn read_vec(&mut self, range: VariableLengthAddressRange) -> io::Result<Vec<u8>> {
        let start = range.start.raw();
        self.requests.push((start, range.num_bytes));
        if start < self.base || start - self.base + range.num_bytes > self.bytes.len() {
            return Err(io::Error::new(io::ErrorKind::Other, "not mapped"));
        }
        let from = start - self.base;
        Ok(self.bytes[from..from + range.num_bytes].to_vec())
    }
}

struct Endless;

impl MemoryReader for Endless {
    fn history(&self) -> History {
        unreachable!()
    }

    fn read_vec(&mut self, range: VariableLengthAddressRange) -> io::Result<Vec<u8>> {
        Ok(vec![b'x'; range.num_bytes])
    }
}

#[test]
fn integers_are_read_in_native_byte_order() {
    let mut bytes = Vec::new();
    bytes.extend_from_slice(&0x1122_3344u32.to_ne_bytes());
    bytes.extend_from_slice(&(-5i32).to_ne_bytes());
    bytes.extend_from_slice(&0x0102_0304_0506_0708u64.to_ne_bytes());
    bytes.extend_from_slice(&(-2i64).to_ne_bytes());
    bytes.extend_from_slice(&0xbeefu16.to_ne_bytes());
    bytes.extend_from_slice(&(-300i16).to_ne_bytes());
    bytes.extend_from_slice(&[0xfe, 0x80]);
    bytes.extend_from_slice(&[0; 2]);
    bytes.extend_from_slice(&0x1234_5678_9abc_def0usize.to_ne_bytes());
    bytes.extend_from_slice(&(-7isize).to_ne_bytes());
    let mut memory = Memory::new(0x1000, bytes);
    assert_eq!(u32::deserialize(&mut memory, Address::new(0x1000)).unwrap(), 0x1122_3344);
    assert_eq!(i32::deserialize(&mut memory, Address::new(0x1004)).unwrap(), -5);
    assert_eq!(u64::deserialize(&mut memory, Address::new(0x1008)).unwrap(), 0x0102_0304_0506_0708);
    assert_eq!(i64::deserialize(&mut memory, Address::new(0x1010)).unwrap(), -2);
    assert_eq!(u16::deserialize(&mut memory, Address::new(0x1018)).unwrap(), 0xbeef);
    assert_eq!(i16::deserialize(&mut memory, Address::new(0x101a)).unwrap(), -300);
    assert_eq!(u8::deserialize(&mut memory, Address::new(0x101c)).unwrap(), 0xfe);
    assert_eq!(i8::deserialize(&mut memory, Address::new(0x101d)).unwrap(), -128);
    assert_eq!(usize::deserialize(&mut memory, Address::new(0x1020)).unwrap(), 0x1234_5678_9abc_def0);
    assert_eq!(isize::deserialize(&mut memory, Address::new(0x1028)).unwrap(), -7);
    assert_eq!(
        memory.requests,
        vec![
            (0x1000, 4),
            (0x1004, 4),
            (0x1008, 8),
            (0x1010, 8),
            (0x1018, 2),
            (0x101a, 2),
            (0x101c, 1),
            (0x101d, 1),
            (0x1020, 8),
            (0x1028, 8)
        ]
    );
}

#[test]
fn sizes_and_alignments_of_the_primitives() {
    assert_eq!((u8::NUM_BYTES, u8::ALIGNMENT), (1, 1));
    assert_eq!((i8::NUM_BYTES, i8::ALIGNMENT), (1, 1));
    assert_eq!((bool::NUM_BYTES, bool::ALIGNMENT), (1, 1));
    assert_eq!((u16::NUM_BYTES, u16::ALIGNMENT), (2, 2));
    assert_eq!((i16::NUM_BYTES, i16::ALIGNMENT), (2, 2));
    assert_eq!((u32::NUM_BYTES, u32::ALIGNMENT), (4, 4));
    assert_eq!((i32::NUM_BYTES, i32::ALIGNMENT), (4, 4));
    assert_eq!((u64::NUM_BYTES, u64::ALIGNMENT), (8, 8));
    assert_eq!((i64::NUM_BYTES, i64::ALIGNMENT), (8, 8));
    assert_eq!((usize::NUM_BYTES, usize::ALIGNMENT), (8, 8));
    assert_eq!((<Ptr<u8>>::NUM_BYTES, <Ptr<u8>>::ALIGNMENT), (8, 8));
    assert_eq!((<String>::NUM_BYTES, <String>::ALIGNMENT), (8, 8));
    assert_eq!((<[u16; 5]>::NUM_BYTES, <[u16; 5]>::ALIGNMENT), (10, 2));
    assert_eq!((<ZeroLengthArray<u32>>::NUM_BYTES, <ZeroLengthArray<u32>>::ALIGNMENT), (0, 4));
    assert_eq!((<PostSizedArray<u8, i32>>::NUM_BYTES, <PostSizedArray<u8, i32>>::ALIGNMENT), (12, 8));
    assert_eq!(<PostSizedArray<u8>>::NUM_BYTES, 16);
    assert_eq!((<Eager<Ptr<u16>>>::NUM_BYTES, <Eager<Ptr<u16>>>::ALIGNMENT), (8, 8));
    let layout = FieldLayout::of::<u32>();
    assert_eq!((layout.num_bytes, layout.alignment), (4, 4));
}

#[test]
fn a_boolean_is_true_unless_its_byte_is_zero() {
    let mut memory = Memory::new(0x10, vec![0, 1, 2, 0xff]);
    assert!(!bool::deserialize(&mut memory, Address::new(0x10)).unwrap());
    assert!(bool::deserialize(&mut memory, Address::new(0x11)).unwrap());
    assert!(bool::deserialize(&mut memory, Address::new(0x12)).unwrap());
    assert!(bool::deserialize(&mut memory, Address::new(0x13)).unwrap());
}

#[test]
fn a_failed_read_is_handed_on() {
    let mut memory = Memory::new(0x1000, vec![0; 4]);
    match u64::deserialize(&mut memory, Address::new(0x1000)) {
        Err(Error::IoError(error)) => assert_eq!(error.to_string(), "not mapped"),
        _ => panic!("the read must fail"),
    }
    assert_eq!(memory.requests, vec![(0x1000, 8)]);
}

#[test]
fn the_fixed_length_read_goes_through_the_reader() {
    let mut memory = Memory::new(0x1000, vec![1, 2, 3, 4, 5, 6]);
    let bytes = memory.read(AddressRange::<3> { start: Address::new(0x1002) }).unwrap();
    assert_eq!(bytes, [3, 4, 5]);
    assert_eq!(memory.requests, vec![(0x1002, 3)]);
    assert!(memory.read(AddressRange::<3> { start: Address::new(0x1004) }).is_err());
}

#[test]
fn a_zero_pointer_is_absent_and_any_other_is_present() {
    let mut memory = Memory::zeroed(0x1000, 16);
    memory.put_usize(0x1008, 0x2000);
    assert_eq!(Option::<Address>::deserialize(&mut memory, Address::new(0x1000)).unwrap(), None);
    assert_eq!(
        Option::<Address>::deserialize(&mut memory, Address::new(0x1008)).unwrap(),
        Some(Address::new(0x2000))
    );
    assert_eq!(Address::deserialize(&mut memory, Address::new(0x1008)).unwrap(), Address::new(0x2000));
    assert!(Option::<Ptr<u32>>::deserialize(&mut memory, Address::new(0x1000)).unwrap().is_none());
    let pointer = Ptr::<u32>::deserialize(&mut memory, Address::new(0x1008)).unwrap();
    assert_eq!(pointer.address(), Address::new(0x2000));
    let array = ArrayPtr::<u32>::deserialize(&mut memory, Address::new(0x1008)).unwrap();
    assert_eq!(array.address(), Address::new(0x2000));
    assert!(Option::<ArrayPtr<u32>>::deserialize(&mut memory, Address::new(0x1000)).unwrap().is_none());
    match Ptr::<u32>::deserialize(&mut memory, Address::new(0x1000)) {
        Err(Error::NullPtrError(address)) => assert_eq!(address, Address::new(0x1000)),
        _ => panic!("a zero pointer must be reported"),
    }
    match Address::deserialize(&mut memory, Address::new(0x1000)) {
        Err(Error::NullPtrError(address)) => assert_eq!(address, Address::new(0x1000)),
        _ => panic!("a zero pointer must be reported"),
    }
    match ArrayPtr::<u32>::deserialize(&mut memory, Address::new(0x1000)) {
        Err(Error::NullPtrError(address)) => assert_eq!(address, Address::new(0x1000)),
        _ => panic!("a zero pointer must be reported"),
    }
}

#[test]
fn deref_issues_one_request_for_the_pointee() {
    let mut memory = Memory::zeroed(0x1000, 0x20);
    memory.put_usize(0x1000, 0x1010);
    memory.put(0x1010, &77u32.to_ne_bytes());
    let pointer = Ptr::<u32>::deserialize(&mut memory, Address::new(0x1000)).unwrap();
    memory.requests.clear();
    assert_eq!(pointer.deref(&mut memory).unwrap(), 77);
    assert_eq!(memory.requests, vec![(0x1010, 4)]);
    assert_eq!(pointer.deref(&mut memory).unwrap(), 77);
    assert_eq!(memory.requests, vec![(0x1010, 4), (0x1010, 4)]);
}

#[test]
fn decoding_a_pointer_does_not_read_the_pointee() {
    let mut memory = Memory::zeroed(0x1000, 8);
    memory.put_usize(0x1000, 0xdead_0000);
    let pointer = Ptr::<u64>::deserialize(&mut memory, Address::new(0x1000)).unwrap();
    assert_eq!(memory.requests, vec![(0x1000, 8)]);
    assert!(pointer.deref(&mut memory).is_err());
}

#[test]
fn an_optional_lazy_value_is_followed_only_when_present() {
    let mut memory = Memory::zeroed(0x1000, 0x20);
    memory.put_usize(0x1008, 0x1010);
    memory.put(0x1010, &9u16.to_ne_bytes());
    let absent = Option::<Ptr<u16>>::deserialize(&mut memory, Address::new(0x1000)).unwrap();
    let present = Option::<Ptr<u16>>::deserialize(&mut memory, Address::new(0x1008)).unwrap();
    memory.requests.clear();
    assert_eq!(absent.deref(&mut memory).unwrap(), None);
    assert!(memory.requests.is_empty());
    assert_eq!(present.deref(&mut memory).unwrap(), Some(9));
    assert_eq!(memory.requests, vec![(0x1010, 2)]);
}

#[test]
fn an_eager_pointer_is_followed_while_decoding() {
    let mut memory = Memory::zeroed(0x1000, 0x20);
    memory.put_usize(0x1000, 0x1018);
    memory.put(0x1018, &0xabcdu16.to_ne_bytes());
    let eager = Eager::<Ptr<u16>>::deserialize(&mut memory, Address::new(0x1000)).unwrap();
    assert_eq!(eager.value, 0xabcd);
    assert_eq!(memory.requests, vec![(0x1000, 8), (0x1018, 2)]);
    let absent = Eager::<Option<Ptr<u16>>>::deserialize(&mut memory, Address::new(0x1008)).unwrap();
    assert_eq!(absent.value, None);
    assert!(Eager::<Ptr<u16>>::deserialize(&mut memory, Address::new(0x1008)).is_err());
}

#[test]
fn array_elements_are_read_at_multiples_of_the_padded_size() {
    let mut memory = Memory::zeroed(0x1000, 0x40);
    for i in 0..6u32 {
        memory.put(0x1000 + 4 * i as usize, &(100 + i).to_ne_bytes());
    }
    let array = ArrayPtr::<u32>::new(Address::new(0x1000));
    assert_eq!(array.element_address(0), Some(Address::new(0x1000)));
    assert_eq!(array.element_address(3), Some(Address::new(0x100c)));
    assert_eq!(array.element_address(usize::MAX), None);
    assert_eq!(array.nth_element(&mut memory, 4).unwrap(), 104);
    assert_eq!(memory.requests, vec![(0x1010, 4)]);
    memory.requests.clear();
    assert_eq!(array.deref(&mut memory, 3).unwrap(), vec![100, 101, 102]);
    assert_eq!(memory.requests, vec![(0x1000, 4), (0x1004, 4), (0x1008, 4)]);
    memory.requests.clear();
    assert_eq!(array.deref(&mut memory, 0).unwrap(), Vec::<u32>::new());
    assert!(memory.requests.is_empty());
}

#[test]
fn an_element_out_of_reach_is_an_overflow_error() {
    let mut memory = Memory::zeroed(0x1000, 8);
    let array = ArrayPtr::<u64>::new(Address::new(usize::MAX - 7));
    match array.nth_element(&mut memory, 1) {
        Err(Error::AddressOverflowError(address)) => assert_eq!(address, Address::new(usize::MAX - 7)),
        _ => panic!("the element lies beyond the address space"),
    }
    assert!(memory.requests.is_empty());
}

#[test]
fn a_range_read_fails_on_its_first_failing_element() {
    let mut memory = Memory::zeroed(0x1000, 8);
    let array = ArrayPtr::<u32>::new(Address::new(0x1000));
    assert!(matches!(array.deref(&mut memory, 4), Err(Error::IoError(_))));
    assert_eq!(memory.requests, vec![(0x1000, 4), (0x1004, 4), (0x1008, 4)]);
}

#[test]
fn a_fixed_size_array_is_laid_out_as_a_c_array() {
    let mut memory = Memory::zeroed(0x1000, 0x20);
    for i in 0..4u16 {
        memory.put(0x1002 + 2 * i as usize, &(7 * i).to_ne_bytes());
    }
    let array = <[u16; 4]>::deserialize(&mut memory, Address::new(0x1002)).unwrap();
    assert_eq!(array, [0, 7, 14, 21]);
    assert_eq!(memory.requests, vec![(0x1002, 2), (0x1004, 2), (0x1006, 2), (0x1008, 2)]);
    let empty = <[u64; 0]>::deserialize(&mut memory, Address::new(0x5000)).unwrap();
    assert_eq!(empty.len(), 0);
}

#[test]
fn a_zero_length_array_reads_nothing_until_asked() {
    let mut memory = Memory::zeroed(0x1000, 0x20);
    memory.put(0x1008, &5u32.to_ne_bytes());
    memory.put(0x100c, &6u32.to_ne_bytes());
    let array = ZeroLengthArray::<u32>::deserialize(&mut memory, Address::new(0x1005)).unwrap();
    assert!(memory.requests.is_empty());
    assert_eq!(array.nth_element(&mut memory, 1).unwrap(), 6);
    assert_eq!(array.deref(&mut memory, 2).unwrap(), vec![5, 6]);
    assert!(matches!(
        ZeroLengthArray::<u64>::deserialize(&mut memory, Address::new(usize::MAX)),
        Err(Error::AddressOverflowError(_))
    ));
}

#[test]
fn a_c_string_terminated_at_byte_five_has_five_bytes() {
    let mut memory = Memory::new(0x1000, b"hello\0world\0".to_vec());
    let text = read_c_string(&mut memory, Address::new(0x1000)).unwrap();
    assert_eq!(text, "hello");
    assert_eq!(text.len(), 5);
    assert_eq!(memory.requests.len(), 6);
    assert_eq!(memory.requests[0], (0x1000, 1));
    assert_eq!(memory.requests[5], (0x1005, 1));
    assert_eq!(read_c_string(&mut memory, Address::new(0x1006)).unwrap(), "world");
    assert_eq!(read_c_string(&mut memory, Address::new(0x1005)).unwrap(), "");
}

#[test]
fn a_c_string_without_terminator_is_reported() {
    let mut endless = Endless;
    match read_c_string(&mut endless, Address::new(0x4000)) {
        Err(Error::UnterminatedCStringError(address)) => assert_eq!(address, Address::new(0x4000)),
        _ => panic!("the string does not end"),
    }
    assert_eq!(MAX_STRING_LENGTH, 1024 * 1024);
}

#[test]
fn a_c_string_at_the_end_of_the_address_space_is_an_overflow() {
    let mut endless = Endless;
    match read_c_string(&mut endless, Address::new(usize::MAX - 2)) {
        Err(Error::AddressOverflowError(address)) => assert_eq!(address, Address::new(usize::MAX - 2)),
        _ => panic!("the scan leaves the address space"),
    }
}

#[test]
fn a_c_string_that_is_no_utf8_is_an_encoding_error() {
    let mut memory = Memory::new(0x1000, vec![b'a', 0xff, b'b', 0]);
    assert!(matches!(read_c_string(&mut memory, Address::new(0x1000)), Err(Error::EncodingError(_))));
    assert!(matches!(text_from_bytes(vec![0xc3, 0x28]), Err(Error::EncodingError(_))));
    assert_eq!(text_from_bytes(vec![0xc3, 0xa9]).unwrap(), "\u{e9}");
    assert_eq!(text_from_bytes(Vec::new()).unwrap(), "");
}

#[test]
fn a_c_string_whose_read_fails_is_an_io_error() {
    let mut memory = Memory::new(0x1000, b"abc".to_vec());
    assert!(matches!(read_c_string(&mut memory, Address::new(0x1000)), Err(Error::IoError(_))));
    assert_eq!(memory.requests.len(), 4);
}

#[test]
fn strings_are_decoded_through_their_pointer() {
    let mut memory = Memory::zeroed(0x1000, 0x20);
    memory.put_usize(0x1000, 0x1010);
    memory.put(0x1010, b"name\0");
    assert_eq!(String::deserialize(&mut memory, Address::new(0x1000)).unwrap(), "name");
    assert_eq!(
        Option::<String>::deserialize(&mut memory, Address::new(0x1000)).unwrap(),
        Some("name".to_string())
    );
    assert_eq!(Option::<String>::deserialize(&mut memory, Address::new(0x1008)).unwrap(), None);
    match String::deserialize(&mut memory, Address::new(0x1008)) {
        Err(Error::NullPtrError(address)) => assert_eq!(address, Address::new(0x1008)),
        _ => panic!("a zero pointer must be reported"),
    }
}

#[test]
fn an_empty_post_sized_array_needs_no_backing_pointer() {
    let mut memory = Memory::zeroed(0x1000, 0x10);
    let array = PostSizedArray::<u32, i32>::deserialize(&mut memory, Address::new(0x1000)).unwrap();
    assert_eq!(memory.requests, vec![(0x1000, 8), (0x1008, 4)]);
    memory.requests.clear();
    assert_eq!(array.deref(&mut memory).unwrap(), Vec::<u32>::new());
    assert!(memory.requests.is_empty());
}

#[test]
fn a_post_sized_array_with_elements_needs_its_pointer() {
    let mut memory = Memory::zeroed(0x1000, 0x10);
    memory.put(0x1008, &3i32.to_ne_bytes());
    let array = PostSizedArray::<u32, i32>::deserialize(&mut memory, Address::new(0x1000)).unwrap();
    match array.deref(&mut memory) {
        Err(Error::WithContext(cause, context)) => {
            assert!(matches!(*cause, Error::NullPtrError(address) if address == Address::new(0)));
            assert_eq!(context, "Null arrayptr in post-sized array with size 3");
        },
        _ => panic!("three elements without a pointer must be reported"),
    }
}

#[test]
fn a_post_sized_array_reads_as_many_elements_as_its_size_says() {
    let mut memory = Memory::zeroed(0x1000, 0x40);
    memory.put_usize(0x1000, 0x1020);
    memory.put(0x1008, &2i32.to_ne_bytes());
    memory.put(0x1020, &11u64.to_ne_bytes());
    memory.put(0x1028, &12u64.to_ne_bytes());
    let array = PostSizedArray::<u64, i32>::deserialize(&mut memory, Address::new(0x1000)).unwrap();
    assert_eq!(array.size(), 2);
    assert_eq!(array.deref(&mut memory).unwrap(), vec![11, 12]);
    let eager = Eager::<PostSizedArray<u64, i32>>::deserialize(&mut memory, Address::new(0x1000)).unwrap();
    assert_eq!(eager.value, vec![11, 12]);
    let made = PostSizedArray::<u64, usize>::new(Some(ArrayPtr::new(Address::new(0x1020))), 1);
    assert_eq!(made.deref(&mut memory).unwrap(), vec![11]);
}

#[test]
fn a_negative_size_is_a_conversion_error() {
    let mut memory = Memory::zeroed(0x1000, 0x10);
    memory.put(0x1008, &(-1i32).to_ne_bytes());
    let array = PostSizedArray::<u32, i32>::deserialize(&mut memory, Address::new(0x1000)).unwrap();
    assert!(matches!(array.deref(&mut memory), Err(Error::IntConversionError(_))));
}

#[test]
fn a_linked_list_is_read_node_by_node() {
    let mut memory = Memory::zeroed(0x1000, 0x60);
    memory.put(0x1000, &1u32.to_ne_bytes());
    memory.put_usize(0x1008, 0x1020);
    memory.put(0x1020, &2u32.to_ne_bytes());
    memory.put_usize(0x1028, 0x1040);
    memory.put(0x1040, &3u32.to_ne_bytes());
    let list = LinkedList::<u32>::deserialize(&mut memory, Address::new(0x1000)).unwrap();
    assert_eq!(list.items, vec![1, 2, 3]);
    assert_eq!(
        memory.requests,
        vec![(0x1000, 4), (0x1008, 8), (0x1020, 4), (0x1028, 8), (0x1040, 4), (0x1048, 8)]
    );
    let empty = LinkedList::<u32>::deserialize(&mut memory, Address::new(0)).unwrap();
    assert!(empty.items.is_empty());
}

#[test]
fn a_linked_list_with_an_unreadable_node_fails_with_the_fields_context() {
    let mut memory = Memory::zeroed(0x1000, 0x10);
    memory.put_usize(0x1008, 0x9000);
    match LinkedList::<u32>::deserialize(&mut memory, Address::new(0x1000)) {
        Err(Error::WithContext(cause, context)) => {
            assert!(matches!(*cause, Error::IoError(_)));
            assert_eq!(context, "while deserializing Node.value");
        },
        _ => panic!("the second node cannot be read"),
    }
}

struct Inner {
    flag: u8,
    count: u64,
}

impl Deserialize for Inner {
    const NUM_BYTES: usize = 16;
    const ALIGNMENT: usize = 8;

    fn layout() -> FieldLayout {
        unreachable!()
    }

    fn lemma_layout() {}

    fn decodes(_: Address, _: History, _: Result<Self, Error>) -> bool {
        unreachable!()
    }

    fn deserialize<M: MemoryReader>(reader: &mut M, address: Address) -> Result<Self, Error> {
        let mut cursor = FieldCursor::new(address);
        let flag = cursor.field::<u8, M>(reader, "Inner", "flag")?;
        let count = cursor.field::<u64, M>(reader, "Inner", "count")?;
        Ok(Inner { flag, count })
    }
}

struct Middle {
    id: u16,
    inner: Eager<Ptr<Inner>>,
}

impl Deserialize for Middle {
    const NUM_BYTES: usize = 16;
    const ALIGNMENT: usize = 8;

    fn layout() -> FieldLayout {
        unreachable!()
    }

    fn lemma_layout() {}

    fn decodes(_: Address, _: History, _: Result<Self, Error>) -> bool {
        unreachable!()
    }

    fn deserialize<M: MemoryReader>(reader: &mut M, address: Address) -> Result<Self, Error> {
        let mut cursor = FieldCursor::new(address);
        let id = cursor.field::<u16, M>(reader, "Middle", "id")?;
        let inner = cursor.field::<Eager<Ptr<Inner>>, M>(reader, "Middle", "inner")?;
        Ok(Middle { id, inner })
    }
}

struct Outer {
    tag: u32,
    middle: Middle,
}

impl Deserialize for Outer {
    const NUM_BYTES: usize = 24;
    const ALIGNMENT: usize = 8;

    fn layout() -> FieldLayout {
        unreachable!()
    }

    fn lemma_layout() {}

    fn decodes(_: Address, _: History, _: Result<Self, Error>) -> bool {
        unreachable!()
    }

    fn deserialize<M: MemoryReader>(reader: &mut M, address: Address) -> Result<Self, Error> {
        let mut cursor = FieldCursor::new(address);
        let tag = cursor.field::<u32, M>(reader, "Outer", "tag")?;
        let middle = cursor.field::<Middle, M>(reader, "Outer", "middle")?;
        Ok(Outer { tag, middle })
    }
}

#[test]
fn fields_are_read_at_their_aligned_offsets() {
    let mut memory = Memory::zeroed(0x1000, 0x40);
    memory.put(0x1000, &0xaabb_ccddu32.to_ne_bytes());
    memory.put(0x1008, &0x77u16.to_ne_bytes());
    memory.put_usize(0x1010, 0x1020);
    memory.put(0x1020, &[5]);
    memory.put(0x1028, &99u64.to_ne_bytes());
    let outer = Outer::deserialize(&mut memory, Address::new(0x1000)).unwrap();
    assert_eq!(outer.tag, 0xaabb_ccdd);
    assert_eq!(outer.middle.id, 0x77);
    assert_eq!(outer.middle.inner.value.flag, 5);
    assert_eq!(outer.middle.inner.value.count, 99);
    assert_eq!(
        memory.requests,
        vec![(0x1000, 4), (0x1008, 2), (0x1010, 8), (0x1020, 1), (0x1028, 8)]
    );
}

#[test]
fn a_failure_three_structures_deep_names_all_three_fields() {
    let mut memory = Memory::zeroed(0x1000, 0x28);
    memory.put_usize(0x1010, 0x1020);
    let error = match Outer::deserialize(&mut memory, Address::new(0x1000)) {
        Err(error) => error,
        Ok(_) => panic!("the innermost count cannot be read"),
    };
    let path = error.context_path();
    assert_eq!(
        path,
        vec![
            "while deserializing Outer.middle".to_string(),
            "while deserializing Middle.inner".to_string(),
            "while deserializing Inner.count".to_string()
        ]
    );
    assert!(error.is_context());
    match error.root_cause() {
        Error::IoError(cause) => assert_eq!(cause.to_string(), "not mapped"),
        _ => panic!("the cause is the failed read"),
    }
    let message = error.message();
    assert!(message.starts_with(
        "while deserializing Outer.middle: while deserializing Middle.inner: while deserializing Inner.count: "
    ));
    assert!(message.ends_with("not mapped"));
}

#[test]
fn a_field_beyond_the_address_space_is_reported_against_the_structure() {
    let mut memory = Memory::zeroed(0x1000, 8);
    let mut cursor = FieldCursor::new(Address::new(usize::MAX - 3));
    match cursor.field::<u64, Memory>(&mut memory, "Top", "value") {
        Err(Error::AddressOverflowError(address)) => assert_eq!(address, Address::new(usize::MAX - 3)),
        _ => panic!("the field lies beyond the address space"),
    }
    assert!(memory.requests.is_empty());
    assert_eq!(field_context("Top", "value"), "while deserializing Top.value");
}

#[test]
fn wrapping_in_contexts_keeps_the_cause() {
    let cause = Error::NullPtrError(Address::new(0x10));
    assert!(!cause.is_context());
    assert!(cause.context_path().is_empty());
    let wrapped = cause.with_context("b".to_string()).with_context("a".to_string());
    assert_eq!(wrapped.context_path(), vec!["a".to_string(), "b".to_string()]);
    assert!(matches!(wrapped.root_cause(), Error::NullPtrError(address) if *address == Address::new(0x10)));
    assert_eq!(wrapped.message(), "a: b: Unexpected null pointer at 0x10");
}

#[test]
fn messages_of_the_errors() {
    assert_eq!(
        Error::AddressOverflowError(Address::new(0xff)).message(),
        "Overflow in address range starting at 0xff"
    );
    assert_eq!(Error::NullPtrError(Address::new(0)).message(), "Unexpected null pointer at 0x0");
    assert_eq!(
        Error::UnterminatedCStringError(Address::new(0x1234_abcd)).message(),
        "Unterminated C string beginnning at 0x1234abcd"
    );
    assert_eq!(Error::InvalidStateError("no state".to_string()).message(), "no state");
    let io = Error::from(io::Error::new(io::ErrorKind::Other, "gone"));
    assert!(matches!(io, Error::IoError(_)));
    assert_eq!(io.message(), "gone");
    let conversion = Error::from(u8::try_from(300u32).unwrap_err());
    assert!(matches!(conversion, Error::IntConversionError(_)));
    let encoding = Error::from(std::str::from_utf8(&[0xff]).unwrap_err());
    assert!(matches!(encoding, Error::EncodingError(_)));
    assert!(!encoding.message().is_empty());
    assert!(!conversion.message().is_empty());
}

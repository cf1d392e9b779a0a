use grub_split::deserialize::layout::FieldLayout;
use grub_split::deserialize::{Deserialize, Error};
use grub_split::memory::reader::History;
use grub_split::memory::{Address, MemoryReader, VariableLengthAddressRange};
use grub_split::mono::ghashtable::{bucket_index, lookup_in_chain, Key};
use grub_split::mono::hash::hash_bytes;
use grub_split::mono::GHashTable;
use std::io;

struct Memory {
    base: usize,
    bytes: Vec<u8>,
    next: usize,
    requests: Vec<(usize, usize)>,
}

impl Memory {
    fn new(base: usize, len: usize) -> Self {
        Memory { base, bytes: vec![0; len], next: base + 8, requests: Vec::new() }
    }

    fn reserve(&mut self, len: usize) -> usize {
        let at = (self.next + 7) / 8 * 8;
        self.next = at + len;
        at
    }

    fn put(&mut self, at: usize, bytes: &[u8]) {
        let from = at - self.base;
        self.bytes[from..from + bytes.len()].copy_from_slice(bytes);
    }

    fn put_usize(&mut self, at: usize, value: usize) {
        self.put(at, &value.to_ne_bytes());
    }

    fn text(&mut self, text: &str) -> usize {
        let at = self.reserve(text.len() + 1);
        self.put(at, text.as_bytes());
        at
    }

    /// A table header with `buckets` buckets, all empty.
    fn table(&mut self, buckets: i32) -> (usize, usize) {
        let header = self.reserve(56);
        let array = self.reserve(8 * buckets.max(0) as usize);
        self.put_usize(header + 16, array);
        self.put(header + 24, &buckets.to_ne_bytes());
        (header, array)
    }

    /// An entry with a key slot, a value slot and the address of the next entry.
    fn entry(&mut self, key: usize, value: u64, next: usize) -> usize {
        let at = self.reserve(24);
        self.put_usize(at, key);
        self.put(at + 8, &value.to_ne_bytes());
        self.put_usize(at + 16, next);
        at
    }
}

impl MemoryReader for Memory {
    fn history(&self) -> History {
        unreachable!()
    }

    fn read_vec(&mut self, range: VariableLengthAddressRange) -> io::Result<Vec<u8>> {
        let start = range.start.raw();
        self.requests.push((start, range.num_bytes));
        if start < self.base || start - self.base + range.num_bytes > self.bytes.len() {
            return Err(io::Error::new(io::ErrorKind::Other, "not mapped"));
        }
        let from = start - self.base;
        Ok(self.bytes[from..from + range.num_bytes].to_vec())
    }
}

#[derive(Debug, PartialEq)]
struct Colliding(u64);

impl Deserialize for Colliding {
    const NUM_BYTES: usize = 8;
    const ALIGNMENT: usize = 8;

    fn layout() -> FieldLayout {
        unreachable!()
    }

    fn lemma_layout() {}

    fn decodes(_: Address, _: History, _: Result<Self, Error>) -> bool {
        unreachable!()
    }

    fn deserialize<M: MemoryReader>(reader: &mut M, address: Address) -> Result<Self, Error> {
        Ok(Colliding(u64::deserialize(reader, address)?))
    }
}

impl grub_split::mono::hash::Hash for Colliding {
    fn spec_hash(&self) -> u32 {
        unreachable!()
    }

    fn hash(&self) -> u32 {
        6
    }
}

impl Key for Colliding {
    fn same_key(&self, _: &Self) -> bool {
        unreachable!()
    }

    fn is_key(&self, other: &Self) -> bool {
        self.0 == other.0
    }
}

fn hash_of(text: &str) -> u32 {
    grub_split::mono::hash::Hash::hash(text)
}

#[test]
fn the_string_hash_is_the_one_of_the_runtime() {
    assert_eq!(hash_of(""), 0);
    assert_eq!(hash_of("a"), 0);
    assert_eq!(hash_of("ab"), 4294964258);
    assert_eq!(hash_of("abc"), 4294870049);
    assert_eq!(hash_of("GameManager"), 132121908);
    assert_eq!(hash_of("Assembly-CSharp"), 4197980909);
    assert_eq!(grub_split::mono::hash::Hash::hash(&"GameManager".to_string()), 132121908);
    assert_eq!(hash_bytes(b"k2"), 4294965746);
    assert_eq!(hash_bytes(&[]), 0);
}

#[test]
fn the_first_byte_of_a_string_does_not_count() {
    assert_eq!(hash_of("xbc"), hash_of("abc"));
    assert_ne!(hash_of("abd"), hash_of("abc"));
}

#[test]
fn the_bucket_is_the_hash_modulo_the_number_of_buckets() {
    assert_eq!(bucket_index(4294965746, 4), 2);
    assert_eq!(bucket_index(7, 1), 0);
    assert_eq!(bucket_index(0, 9), 0);
    assert_eq!(bucket_index(u32::MAX, 1 << 20), (1 << 20) - 1);
}

/// Four buckets, with the chain k2 -> k6 in bucket 2.
fn two_entry_table() -> (Memory, usize) {
    let mut memory = Memory::new(0x1000, 0x200);
    let (header, array) = memory.table(4);
    let k6 = memory.text("k6");
    let second = memory.entry(k6, 66, 0);
    let k2 = memory.text("k2");
    let first = memory.entry(k2, 22, second);
    memory.put_usize(array + 16, first);
    (memory, header)
}

#[test]
fn decoding_a_table_reads_its_header_only() {
    let (mut memory, header) = two_entry_table();
    GHashTable::<String, u64>::deserialize(&mut memory, Address::new(header)).unwrap();
    assert_eq!(
        memory.requests,
        vec![
            (header, 8),
            (header + 8, 8),
            (header + 16, 8),
            (header + 24, 4),
            (header + 28, 4),
            (header + 32, 4),
            (header + 36, 4),
            (header + 40, 8),
            (header + 48, 8)
        ]
    );
    assert_eq!(<GHashTable<String, u64>>::NUM_BYTES, 56);
    assert_eq!(<GHashTable<String, u64>>::ALIGNMENT, 8);
}

#[test]
fn chained_keys_are_found_by_walking_their_bucket() {
    let (mut memory, header) = two_entry_table();
    let table = GHashTable::<String, u64>::deserialize(&mut memory, Address::new(header)).unwrap();
    assert_eq!(table.get(&mut memory, &"k2".to_string()).unwrap(), Some(22));
    assert_eq!(table.get(&mut memory, &"k6".to_string()).unwrap(), Some(66));
}

#[test]
fn an_absent_key_is_not_found() {
    let (mut memory, header) = two_entry_table();
    let table = GHashTable::<String, u64>::deserialize(&mut memory, Address::new(header)).unwrap();
    // "ab" belongs to bucket 2 as well: the whole chain is walked
    assert_eq!(table.get(&mut memory, &"ab".to_string()).unwrap(), None);
    // "k1" belongs to bucket 1, which is empty: only the bucket's head is read
    memory.requests.clear();
    assert_eq!(table.get(&mut memory, &"k1".to_string()).unwrap(), None);
    assert_eq!(memory.requests.len(), 1);
}

#[test]
fn a_lookup_reads_one_entry_at_a_time_and_stops_at_the_match() {
    let (mut memory, header) = two_entry_table();
    let table = GHashTable::<String, u64>::deserialize(&mut memory, Address::new(header)).unwrap();
    memory.requests.clear();
    assert_eq!(table.get(&mut memory, &"k2".to_string()).unwrap(), Some(22));
    // the bucket's head, then the first entry: its key pointer, the three
    // bytes of the key, its value and its link
    assert_eq!(memory.requests.len(), 1 + 1 + 3 + 1 + 1);
    memory.requests.clear();
    assert_eq!(table.get(&mut memory, &"k6".to_string()).unwrap(), Some(66));
    assert_eq!(memory.requests.len(), 1 + 2 * (1 + 3 + 1 + 1));
}

#[test]
fn colliding_keys_are_told_apart_by_comparison() {
    let mut memory = Memory::new(0x1000, 0x200);
    let (header, array) = memory.table(4);
    let second = memory.entry(1002, 20, 0);
    let first = memory.entry(1001, 10, second);
    memory.put_usize(array + 16, first);
    let table = GHashTable::<Colliding, u64>::deserialize(&mut memory, Address::new(header)).unwrap();
    assert_eq!(table.get(&mut memory, &Colliding(1001)).unwrap(), Some(10));
    assert_eq!(table.get(&mut memory, &Colliding(1002)).unwrap(), Some(20));
    assert_eq!(table.get(&mut memory, &Colliding(1003)).unwrap(), None);
}

#[test]
fn a_table_without_buckets_is_in_no_usable_state() {
    let mut memory = Memory::new(0x1000, 0x100);
    let (header, _) = memory.table(0);
    let table = GHashTable::<String, u64>::deserialize(&mut memory, Address::new(header)).unwrap();
    memory.requests.clear();
    match table.get(&mut memory, &"k2".to_string()) {
        Err(Error::InvalidStateError(text)) => assert_eq!(text, "hash table has no buckets"),
        _ => panic!("a table without buckets cannot be searched"),
    }
    assert!(memory.requests.is_empty());
}

#[test]
fn a_table_with_a_negative_size_is_a_conversion_error() {
    let mut memory = Memory::new(0x1000, 0x100);
    let (header, _) = memory.table(-4);
    let table = GHashTable::<String, u64>::deserialize(&mut memory, Address::new(header)).unwrap();
    assert!(matches!(table.get(&mut memory, &"k2".to_string()), Err(Error::IntConversionError(_))));
}

#[test]
fn a_table_whose_buckets_have_no_address_is_a_null_pointer() {
    let mut memory = Memory::new(0x1000, 0x100);
    let (header, _) = memory.table(4);
    memory.put_usize(header + 16, 0);
    let table = GHashTable::<String, u64>::deserialize(&mut memory, Address::new(header)).unwrap();
    assert!(matches!(
        table.get(&mut memory, &"k2".to_string()),
        Err(Error::NullPtrError(address)) if address == Address::new(0)
    ));
}

#[test]
fn an_entry_that_cannot_be_read_fails_the_lookup() {
    let mut memory = Memory::new(0x1000, 0x200);
    let (header, array) = memory.table(4);
    let k2 = memory.text("k2");
    let first = memory.entry(k2, 22, 0x9000);
    memory.put_usize(array + 16, first);
    let table = GHashTable::<String, u64>::deserialize(&mut memory, Address::new(header)).unwrap();
    assert_eq!(table.get(&mut memory, &"k2".to_string()).unwrap(), Some(22));
    match table.get(&mut memory, &"k6".to_string()) {
        Err(Error::WithContext(cause, context)) => {
            assert!(matches!(*cause, Error::IoError(_)));
            assert_eq!(context, "while deserializing Entry.key");
        },
        _ => panic!("the second entry cannot be read"),
    }
}

#[test]
fn a_chain_is_walked_from_its_first_entry() {
    let mut memory = Memory::new(0x1000, 0x100);
    let second = memory.entry(2, 200, 0);
    let first = memory.entry(1, 100, second);
    let found: Option<u64> = lookup_in_chain(&mut memory, Address::new(first), &Colliding(2)).unwrap();
    assert_eq!(found, Some(200));
    let found: Option<u64> = lookup_in_chain(&mut memory, Address::new(second), &Colliding(1)).unwrap();
    assert_eq!(found, None);
}

#[test]
fn a_chain_at_zero_has_no_entry() {
    let mut memory = Memory::new(0x1000, 0x10);
    let found: Option<u64> = lookup_in_chain(&mut memory, Address::new(0), &Colliding(1)).unwrap();
    assert_eq!(found, None);
    assert!(memory.requests.is_empty());
}

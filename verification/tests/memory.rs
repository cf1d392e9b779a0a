use grub_split::memory::caching::CachingMemoryReader;
use grub_split::memory::external::locator::MappedRegion;
use grub_split::memory::external::ExternalMemoryLocator;
use grub_split::memory::reader::History;
use grub_split::memory::searcher::{bytes_equal, DEFAULT_PAGE_SIZE};
use grub_split::memory::{
    Address, AddressRange, MemoryLocator, MemoryReader, MemorySearcher, VariableLengthAddressRange,
};
use std::cell::RefCell;
use std::io;
use std::rc::Rc;

struct Counted {
    base: usize,
    bytes: Vec<u8>,
    requests: Rc<RefCell<Vec<(usize, usize)>>>,
}

impl MemoryReader for Counted {
    fn history(&self) -> History {
        unreachable!()
    }

    fn read_vec(&mut self, range: VariableLengthAddressRange) -> io::Result<Vec<u8>> {
        let start = range.start.raw();
        self.requests.borrow_mut().push((start, range.num_bytes));
        if start < self.base || start - self.base + range.num_bytes > self.bytes.len() {
            return Err(io::Error::new(io::ErrorKind::Other, "not mapped"));
        }
        let from = start - self.base;
        Ok(self.bytes[from..from + range.num_bytes].to_vec())
    }
}

fn counted(base: usize, len: usize) -> (Counted, Rc<RefCell<Vec<(usize, usize)>>>) {
    let requests = Rc::new(RefCell::new(Vec::new()));
    let bytes = (0..len).map(|i| (i % 251) as u8).collect();
    (Counted { base, bytes, requests: requests.clone() }, requests)
}

fn range(start: usize, num_bytes: usize) -> VariableLengthAddressRange {
    VariableLengthAddressRange { start: Address::new(start), num_bytes }
}

#[test]
fn a_cached_read_returns_what_the_reader_holds() {
    let (reader, _) = counted(0, 256);
    let mut cache = CachingMemoryReader::<Counted, 16>::new(reader);
    let bytes = cache.read_vec(range(5, 40)).unwrap();
    let expected: Vec<u8> = (5..45).map(|i| i as u8).collect();
    assert_eq!(bytes, expected);
    assert_eq!(cache.read_vec(range(16, 16)).unwrap(), (16..32).map(|i| i as u8).collect::<Vec<u8>>());
    assert_eq!(cache.read_vec(range(31, 2)).unwrap(), vec![31, 32]);
    assert_eq!(cache.read_vec(range(47, 1)).unwrap(), vec![47]);
}

#[test]
fn each_page_is_fetched_at_most_once() {
    let (reader, requests) = counted(0, 256);
    let mut cache = CachingMemoryReader::<Counted, 16>::new(reader);
    cache.read_vec(range(5, 40)).unwrap();
    assert_eq!(*requests.borrow(), vec![(0, 16), (16, 16), (32, 16)]);
    cache.read_vec(range(0, 48)).unwrap();
    cache.read_vec(range(20, 3)).unwrap();
    assert_eq!(requests.borrow().len(), 3);
    cache.read_vec(range(40, 30)).unwrap();
    assert_eq!(*requests.borrow(), vec![(0, 16), (16, 16), (32, 16), (48, 16), (64, 16)]);
}

#[test]
fn a_read_of_no_bytes_touches_nothing() {
    let (reader, requests) = counted(0x100, 16);
    let mut cache = CachingMemoryReader::<Counted, 16>::new(reader);
    assert_eq!(cache.read_vec(range(0x5000, 0)).unwrap(), Vec::<u8>::new());
    assert!(requests.borrow().is_empty());
}

#[test]
fn a_page_that_cannot_be_read_fails_the_read_and_is_tried_again() {
    let (reader, requests) = counted(0, 40);
    let mut cache = CachingMemoryReader::<Counted, 16>::new(reader);
    assert!(cache.read_vec(range(30, 4)).is_err());
    assert_eq!(*requests.borrow(), vec![(16, 16), (32, 16)]);
    assert!(cache.read_vec(range(33, 1)).is_err());
    assert_eq!(*requests.borrow(), vec![(16, 16), (32, 16), (32, 16)]);
    assert_eq!(cache.read_vec(range(30, 2)).unwrap(), vec![30, 31]);
    assert_eq!(requests.borrow().len(), 3);
}

#[test]
fn a_range_that_leaves_the_address_space_is_refused() {
    let (reader, requests) = counted(0, 16);
    let mut cache = CachingMemoryReader::<Counted, 16>::new(reader);
    assert!(cache.read_vec(range(usize::MAX - 1, 8)).is_err());
    assert!(requests.borrow().is_empty());
}

#[test]
fn add_page_to_cache_reads_a_page_once() {
    let (reader, requests) = counted(0, 64);
    let mut cache = CachingMemoryReader::<Counted, 32>::new(reader);
    assert!(cache.add_page_to_cache(1).is_ok());
    assert!(cache.add_page_to_cache(1).is_ok());
    assert_eq!(*requests.borrow(), vec![(32, 32)]);
    assert!(cache.add_page_to_cache(2).is_err());
    assert_eq!(*requests.borrow(), vec![(32, 32), (64, 32)]);
}

#[test]
fn the_fixed_length_read_of_the_cache_goes_through_its_pages() {
    let (reader, requests) = counted(0, 64);
    let mut cache = CachingMemoryReader::<Counted, 8>::new(reader);
    assert_eq!(cache.read(AddressRange::<4> { start: Address::new(6) }).unwrap(), [6, 7, 8, 9]);
    assert_eq!(*requests.borrow(), vec![(0, 8), (8, 8)]);
}

#[test]
fn a_search_finds_the_first_page_that_starts_with_the_signature() {
    let (mut reader, requests) = counted(0x1000, 0x100);
    reader.bytes[0x40..0x44].copy_from_slice(b"SIGN");
    reader.bytes[0x80..0x84].copy_from_slice(b"SIGN");
    reader.bytes[0x21..0x25].copy_from_slice(b"SIGN");
    let signature = b"SIGN".to_vec();
    let searcher = MemorySearcher::with_page_size(&signature, 0x20).unwrap();
    let found = searcher.search(&mut reader, range(0x1000, 0x100)).unwrap();
    assert_eq!(found, Some(Address::new(0x1040)));
    assert_eq!(*requests.borrow(), vec![(0x1000, 4), (0x1020, 4), (0x1040, 4)]);
}

#[test]
fn a_search_without_a_match_looks_at_every_page_of_the_range() {
    let (mut reader, requests) = counted(0x1000, 0x100);
    let signature = vec![0xff, 0xff];
    let searcher = MemorySearcher::with_page_size(&signature, 0x40).unwrap();
    assert_eq!(searcher.search(&mut reader, range(0x1000, 0x81)).unwrap(), None);
    assert_eq!(*requests.borrow(), vec![(0x1000, 2), (0x1040, 2), (0x1080, 2)]);
    requests.borrow_mut().clear();
    assert_eq!(searcher.search(&mut reader, range(0x1000, 0x80)).unwrap(), None);
    assert_eq!(*requests.borrow(), vec![(0x1000, 2), (0x1040, 2)]);
    requests.borrow_mut().clear();
    assert_eq!(searcher.search(&mut reader, range(0x1000, 0)).unwrap(), None);
    assert!(requests.borrow().is_empty());
}

#[test]
fn a_search_goes_on_after_a_place_that_cannot_be_read() {
    let (mut reader, requests) = counted(0x1000, 0x40);
    reader.bytes[0x20..0x23].copy_from_slice(b"abc");
    let signature = b"abc".to_vec();
    let searcher = MemorySearcher::with_page_size(&signature, 0x20).unwrap();
    let found = searcher.search(&mut reader, range(0xfc0, 0x100)).unwrap();
    assert_eq!(found, Some(Address::new(0x1020)));
    assert_eq!(*requests.borrow(), vec![(0xfc0, 3), (0xfe0, 3), (0x1000, 3), (0x1020, 3)]);
}

#[test]
fn a_search_stops_at_the_end_of_the_address_space() {
    let (mut reader, requests) = counted(0x1000, 0x40);
    let signature = b"abc".to_vec();
    let searcher = MemorySearcher::with_page_size(&signature, 0x10).unwrap();
    assert_eq!(searcher.search(&mut reader, range(usize::MAX - 0x18, 0x100)).unwrap(), None);
    assert_eq!(*requests.borrow(), vec![(usize::MAX - 0x18, 3), (usize::MAX - 0x8, 3)]);
}

#[test]
fn the_default_stride_is_the_page_size() {
    let (mut reader, requests) = counted(0, 0x3000);
    let signature = vec![0xaa, 0xbb, 0xcc];
    reader.bytes[0x2000..0x2003].copy_from_slice(&signature);
    let searcher = MemorySearcher::new(&signature);
    assert_eq!(DEFAULT_PAGE_SIZE, 4096);
    assert_eq!(searcher.search(&mut reader, range(0, 0x3000)).unwrap(), Some(Address::new(0x2000)));
    assert_eq!(*requests.borrow(), vec![(0, 3), (0x1000, 3), (0x2000, 3)]);
    assert!(MemorySearcher::with_page_size(&signature, 0).is_none());
}

#[test]
fn bytes_are_equal_only_when_all_of_them_are() {
    assert!(bytes_equal(&vec![1, 2, 3], &[1, 2, 3]));
    assert!(!bytes_equal(&vec![1, 2, 3], &[1, 2, 4]));
    assert!(!bytes_equal(&vec![1, 2, 3], &[1, 2]));
    assert!(bytes_equal(&Vec::new(), &[]));
}

#[test]
fn a_library_is_located_by_the_end_of_its_path() {
    let regions = vec![
        MappedRegion { filename: None, start: 0x1000 },
        MappedRegion { filename: Some("/usr/lib/libfirst.dylib".to_string()), start: 0x2000 },
        MappedRegion { filename: Some("/opt/game/libmonobdwgc-2.0.dylib".to_string()), start: 0x3000 },
        MappedRegion { filename: Some("/opt/game/libmonobdwgc-2.0.dylib".to_string()), start: 0x4000 },
    ];
    let mut locator = ExternalMemoryLocator::from_regions(regions);
    assert_eq!(locator.locate("libmonobdwgc-2.0.dylib").unwrap(), Address::new(0x3000));
    assert_eq!(locator.locate("libfirst.dylib").unwrap(), Address::new(0x2000));
    assert_eq!(locator.locate("lib/libfirst.dylib").unwrap(), Address::new(0x2000));
    assert!(locator.locate("first.dylib").is_err());
    assert!(locator.locate("libmissing.dylib").is_err());
    let mut empty = ExternalMemoryLocator::from_regions(Vec::new());
    assert!(empty.locate("libfirst.dylib").is_err());
}

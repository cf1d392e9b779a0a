use grub_split::deserialize::{Deserialize, Error, LazyDeserialize};
use grub_split::memory::reader::History;
use grub_split::memory::{Address, MemoryLocator, MemoryReader, VariableLengthAddressRange};
use grub_split::mono::class::{optional_ptr, MONO_ROOT_DOMAIN};
use grub_split::mono::images::{
    text_section_pattern, LOADED_IMAGES_OFFSET, MAX_OFFSET_BYTES, MONO_LIBRARY_NAME,
};
use grub_split::mono::utils::has_flag;
use grub_split::mono::{
    Class, ClassInternals, Image, LoadedImages, MonoClassField, MonoClassRuntimeInfo,
    MonoInternalHashTable, MonoStreamHeader, MonoTableInfo, MonoType, MonoVTable, ObjectInternals,
    MONO_TOKEN_TYPE_DEF,
};
use grub_split::run::{find_class, find_in_image, find_in_images, find_in_names, run, type_def_token};
use std::io;

/// Memory in regions, with unmapped room between them.
struct Sparse {
    regions: Vec<(usize, Vec<u8>)>,
    next: usize,
    requests: usize,
}

impl Sparse {
    fn new() -> Self {
        Sparse { regions: Vec::new(), next: 0x10_0000, requests: 0 }
    }

    fn map(&mut self, at: usize, len: usize) {
        self.regions.push((at, vec![0; len]));
    }

    fn reserve(&mut self, len: usize) -> usize {
        let at = self.next;
        self.next = (at + len + 0x17) / 8 * 8;
        self.map(at, len);
        at
    }

    fn put(&mut self, at: usize, bytes: &[u8]) {
        for (base, content) in self.regions.iter_mut() {
            if at >= *base && at + bytes.len() <= *base + content.len() {
                content[at - *base..at - *base + bytes.len()].copy_from_slice(bytes);
                return;
            }
        }
        panic!("nothing is mapped at {:#x}", at);
    }

    fn put_usize(&mut self, at: usize, value: usize) {
        self.put(at, &value.to_ne_bytes());
    }

    fn put_u32(&mut self, at: usize, value: u32) {
        self.put(at, &value.to_ne_bytes());
    }

    fn put_i32(&mut self, at: usize, value: i32) {
        self.put(at, &value.to_ne_bytes());
    }

    fn text(&mut self, text: &str) -> usize {
        let at = self.reserve(text.len() + 1);
        self.put(at, text.as_bytes());
        at
    }

    /// A table with one bucket that holds one entry.
    fn single_entry_table(&mut self, key: &str, value: u64) -> usize {
        let header = self.reserve(56);
        let array = self.reserve(8);
        let key = self.text(key);
        let entry = self.reserve(24);
        self.put_usize(entry, key);
        self.put(entry + 8, &value.to_ne_bytes());
        self.put_usize(header + 16, array);
        self.put_i32(header + 24, 1);
        self.put_usize(array, entry);
        header
    }

    /// A class without runtime information and without fields.
    fn class(&mut self, name: &str, type_token: u32, next: usize) -> usize {
        let at = self.reserve(264);
        let name = self.text(name);
        let name_space = self.text("");
        let fields = self.reserve(8);
        self.put_usize(at + 64, name);
        self.put_usize(at + 72, name_space);
        self.put_u32(at + 80, type_token);
        self.put_usize(at + 144, fields);
        self.put_usize(at + 256, next);
        at
    }

    /// An image with the given caches.
    fn image(&mut self, name: &str, name_cache: usize, class_table: usize, class_cache_size: i32) -> usize {
        let at = self.reserve(1880);
        let name = self.text(name);
        self.put_usize(at + 32, name);
        self.put_i32(at + 1216 + 24, class_cache_size);
        self.put_usize(at + 1216 + 32, class_table);
        self.put_usize(at + 1296, name_cache);
        at
    }
}

impl MemoryReader for Sparse {
    fn history(&self) -> History {
        unreachable!()
    }

    fn read_vec(&mut self, range: VariableLengthAddressRange) -> io::Result<Vec<u8>> {
        self.requests += 1;
        let start = range.start.raw();
        for (base, content) in &self.regions {
            if start >= *base && start - *base + range.num_bytes <= content.len() {
                return Ok(content[start - *base..start - *base + range.num_bytes].to_vec());
            }
        }
        Err(io::Error::new(io::ErrorKind::Other, "not mapped"))
    }
}

struct Fixed(Option<usize>);

impl MemoryLocator for Fixed {
    fn located(&self) -> grub_split::memory::locator::Located {
        unreachable!()
    }

    fn locate(&mut self, library: &str) -> io::Result<Address> {
        assert_eq!(library, MONO_LIBRARY_NAME);
        match self.0 {
            Some(base) => Ok(Address::new(base)),
            None => Err(io::Error::new(io::ErrorKind::Other, "library not found")),
        }
    }
}

#[test]
fn sizes_of_the_runtime_structures() {
    assert_eq!((MonoType::NUM_BYTES, MonoType::ALIGNMENT), (12, 8));
    assert_eq!((MonoClassField::NUM_BYTES, MonoClassField::ALIGNMENT), (28, 8));
    assert_eq!((MonoVTable::NUM_BYTES, MonoVTable::ALIGNMENT), (64, 8));
    assert_eq!((MonoClassRuntimeInfo::NUM_BYTES, MonoClassRuntimeInfo::ALIGNMENT), (8, 8));
    assert_eq!((ClassInternals::NUM_BYTES, ClassInternals::ALIGNMENT), (264, 8));
    assert_eq!((Class::NUM_BYTES, Class::ALIGNMENT), (264, 8));
    assert_eq!((MonoStreamHeader::NUM_BYTES, MonoStreamHeader::ALIGNMENT), (12, 8));
    assert_eq!((MonoTableInfo::NUM_BYTES, MonoTableInfo::ALIGNMENT), (16, 8));
    assert_eq!((Image::NUM_BYTES, Image::ALIGNMENT), (1880, 8));
    assert_eq!((ObjectInternals::NUM_BYTES, ObjectInternals::ALIGNMENT), (16, 8));
    assert_eq!(<MonoInternalHashTable<u8>>::NUM_BYTES, 40);
    assert_eq!(MONO_TOKEN_TYPE_DEF, 0x0200_0000);
    assert_eq!(MONO_ROOT_DOMAIN, 0);
    assert_eq!(LOADED_IMAGES_OFFSET, 0x2f_bfc0);
    assert_eq!(MAX_OFFSET_BYTES, 0x40_0000);
    assert_eq!(text_section_pattern().len(), 48);
    assert_eq!(&text_section_pattern()[..4], &[0xcf, 0xfa, 0xed, 0xfe]);
}

#[test]
fn a_flag_is_set_when_all_of_its_bits_are() {
    assert!(has_flag(0b1010, 0b1000));
    assert!(has_flag(0b1010, 0b1010));
    assert!(!has_flag(0b1010, 0b0110));
    assert!(has_flag(7, 0));
    assert!(!has_flag(0, 1));
}

#[test]
fn rows_and_row_size_are_packed_into_one_field() {
    let mut memory = Sparse::new();
    let at = memory.reserve(16);
    memory.put_u32(at + 8, 0x2a00_0c11);
    memory.put_u32(at + 12, 0x55);
    let table = MonoTableInfo::deserialize(&mut memory, Address::new(at)).unwrap();
    assert_eq!(table.rows(), 0x2a);
    assert_eq!(table.row_size(), 0x11);
    assert_eq!(table.size_bitfield, 0x55);
    assert_eq!(table.base, None);
}

#[test]
fn the_flags_of_a_table_of_a_class() {
    let mut memory = Sparse::new();
    let at = memory.reserve(64);
    memory.put_usize(at, 0x7000);
    memory.put_u32(at + 48, 0xa000_0000);
    let vtable = MonoVTable::deserialize(&mut memory, Address::new(at)).unwrap();
    assert!(vtable.remote());
    assert!(!vtable.init_failed());
    assert!(vtable.has_static_fields());
    assert_eq!(vtable.class_ptr().address(), Address::new(0x7000));
    memory.put_u32(at + 48, 0x4000_0000);
    let vtable = MonoVTable::deserialize(&mut memory, Address::new(at)).unwrap();
    assert!(!vtable.remote());
    assert!(vtable.init_failed());
    assert!(!vtable.has_static_fields());
}

#[test]
fn the_flags_of_an_image() {
    let mut memory = Sparse::new();
    let table = memory.reserve(8);
    let names = memory.single_entry_table("", 0);
    let at = memory.image("image", names, table, 1);
    memory.put(at + 28, &[0b1010_0101, 0b0101_1000]);
    let image = Image::deserialize(&mut memory, Address::new(at)).unwrap();
    assert_eq!(image.name, "image");
    assert!(image.raw_buffer_used());
    assert!(!image.raw_data_allocated());
    assert!(image.fileio_used());
    assert!(!image.dynamic());
    assert!(!image.ref_only());
    assert!(image.uncompressed_metadata());
    assert!(!image.metadata_only());
    assert!(image.load_from_context());
    assert!(!image.checked_module_cctor());
    assert!(image.has_module_cctor());
    assert!(!image.idx_string_wide());
    assert!(image.idx_guid_wide());
    assert!(image.idx_blob_wide());
    assert!(!image.core_clr_platform_code());
    assert_eq!(image.class_cache.size, 1);
    assert_eq!(image.class_cache.table.address(), Address::new(table));
    assert_eq!(image.tables.len(), 56);
}

#[test]
fn an_image_without_a_name_fails_with_the_fields_context() {
    let mut memory = Sparse::new();
    let at = memory.reserve(1880);
    match Image::deserialize(&mut memory, Address::new(at)) {
        Err(Error::WithContext(cause, context)) => {
            assert_eq!(context, "while deserializing Image.name");
            assert!(matches!(*cause, Error::NullPtrError(address) if address == Address::new(at + 32)));
        },
        _ => panic!("the name is missing"),
    }
}

#[test]
fn a_class_without_runtime_information_has_no_table() {
    let mut memory = Sparse::new();
    let at = memory.class("Plain", 7, 0);
    let class = Class::deserialize(&mut memory, Address::new(at)).unwrap();
    assert_eq!(class.internals.name, "Plain");
    assert_eq!(class.internals.name_space, "");
    assert_eq!(class.type_token(), 7);
    assert!(class.internals.next_class_cache_ptr().is_none());
    assert!(class.internals.parent_ptr().is_none());
    assert!(class.internals.nested_in_ptr().is_none());
    assert!(class.internals.image_ptr().is_none());
    match class.get_static_field_address("anything") {
        Err(Error::InvalidStateError(text)) => assert_eq!(text, "No static field data"),
        _ => panic!("a class without a table has no static data"),
    }
}

/// A class with two fields and a table for the root domain, whose static
/// data lies at 0x50_0000.
fn class_with_statics(memory: &mut Sparse, max_domain: u16) -> usize {
    let at = memory.class("Game", 9, 0);
    // fields: "score" at offset 16 and "lives" at offset 24
    let fields = memory.reserve(64);
    let mono_type = memory.reserve(12);
    for (i, (name, offset)) in [("score", 16i32), ("lives", 24i32)].iter().enumerate() {
        let name = memory.text(name);
        memory.put_usize(fields + 32 * i, mono_type);
        memory.put_usize(fields + 32 * i + 8, name);
        memory.put_usize(fields + 32 * i + 16, at);
        memory.put_i32(fields + 32 * i + 24, *offset);
    }
    memory.put_usize(at + 144, fields);
    memory.put_u32(at + 248, 2);
    // runtime information with one domain, whose table has three entries
    let vtable = memory.reserve(64 + 8 * 4);
    memory.put_usize(vtable, at);
    for i in 0..3 {
        memory.put_usize(vtable + 64 + 8 * i, 0x6000 + i);
    }
    memory.put_usize(vtable + 64 + 8 * 3, 0x50_0000);
    let info = memory.reserve(16);
    memory.put(info, &max_domain.to_ne_bytes());
    memory.put_usize(info + 8, vtable);
    memory.put_usize(at + 200, info);
    memory.put_i32(at + 84, 3);
    at
}

#[test]
fn static_fields_lie_after_the_table_of_the_class() {
    let mut memory = Sparse::new();
    let at = class_with_statics(&mut memory, 1);
    let class = Class::deserialize(&mut memory, Address::new(at)).unwrap();
    assert_eq!(class.get_static_field_address("score").unwrap(), Address::new(0x50_0010));
    assert_eq!(class.get_static_field_address("lives").unwrap(), Address::new(0x50_0018));
    match class.get_static_field_address("missing") {
        Err(Error::InvalidStateError(text)) => {
            assert_eq!(text, "Field \"missing\" does not exist on class \"Game\"")
        },
        _ => panic!("the class has no such field"),
    }
    let table = class.internals.deserialize_vtable(&mut memory).unwrap().unwrap();
    assert_eq!(table.class, Address::new(at));
    assert_eq!(table.vtable.nth_element(&mut memory, 1).unwrap(), Address::new(0x6001));
}

#[test]
fn the_object_in_a_static_field_is_read_at_the_field() {
    let mut memory = Sparse::new();
    let at = class_with_statics(&mut memory, 1);
    let class = Class::deserialize(&mut memory, Address::new(at)).unwrap();
    // an object header at the place of "score": a pointer to a table, and no lock
    let vtable = memory.reserve(64);
    memory.put_usize(vtable, at);
    memory.map(0x50_0000, 0x40);
    memory.put_usize(0x50_0010, vtable);
    let object = class.get_static_field_object(&mut memory, "score").unwrap();
    assert_eq!(object.internals.vtable.value.class, Address::new(at));
    assert_eq!(object.internals.synchronization, None);
    assert_eq!(object.class.internals.name, "Game");
    assert!(class.get_static_field_object(&mut memory, "missing").is_err());
    assert!(class.get_static_field_object(&mut memory, "lives").is_err());
}

#[test]
fn a_class_whose_domains_do_not_reach_the_root_is_in_no_usable_state() {
    let mut memory = Sparse::new();
    let at = class_with_statics(&mut memory, 0);
    match Class::deserialize(&mut memory, Address::new(at)) {
        Err(Error::WithContext(cause, context)) => {
            assert_eq!(context, "vtable");
            match *cause {
                Error::InvalidStateError(text) => {
                    assert_eq!(text, "max_domain [0] is less than MONO_ROOT_DOMAIN [0]")
                },
                _ => panic!("the state is what is wrong"),
            }
        },
        _ => panic!("the class has no table for the root domain"),
    }
}

#[test]
fn a_field_that_cannot_be_read_is_named_by_its_index() {
    let mut memory = Sparse::new();
    let at = class_with_statics(&mut memory, 1);
    memory.put_u32(at + 248, 3);
    match Class::deserialize(&mut memory, Address::new(at)) {
        Err(Error::WithContext(_, context)) => assert_eq!(context, "fields.2"),
        _ => panic!("the class has two fields only"),
    }
}

#[test]
fn a_static_field_with_a_negative_offset_is_a_conversion_error() {
    let mut memory = Sparse::new();
    let at = class_with_statics(&mut memory, 1);
    let class = Class::deserialize(&mut memory, Address::new(at)).unwrap();
    let fields = class.internals.fields.address().raw();
    memory.put_i32(fields + 24, -8);
    let class = Class::deserialize(&mut memory, Address::new(at)).unwrap();
    assert!(matches!(class.get_static_field_address("score"), Err(Error::IntConversionError(_))));
    assert_eq!(class.get_static_field_address("lives").unwrap(), Address::new(0x50_0018));
}

#[test]
fn the_token_of_a_type_definition() {
    assert_eq!(type_def_token(5).unwrap(), 0x0200_0005);
    assert_eq!(type_def_token(0).unwrap(), 0x0200_0000);
    assert!(matches!(type_def_token(u64::MAX), Err(Error::AddressOverflowError(_))));
    assert_eq!(optional_ptr::<u8>(None).is_none(), true);
    assert_eq!(optional_ptr::<u8>(Some(Address::new(8))).unwrap().address(), Address::new(8));
}

#[test]
fn a_class_is_found_in_its_bucket_of_the_class_cache() {
    let mut memory = Sparse::new();
    let wanted = memory.class("Wanted", 0x0200_0005, 0);
    let other = memory.class("Other", 0x0200_0001, wanted);
    let table = memory.reserve(8 * 4);
    memory.put_usize(table + 8, other);
    let names = memory.single_entry_table("", 0);
    let image = memory.image("image", names, table, 4);
    let image = Image::deserialize(&mut memory, Address::new(image)).unwrap();
    let class = find_class(&mut memory, &image.class_cache, 0x0200_0005).unwrap();
    assert_eq!(class.internals.name, "Wanted");
    let class = find_class(&mut memory, &image.class_cache, 0x0200_0001).unwrap();
    assert_eq!(class.internals.name, "Other");
    // token 9 belongs to the same bucket, and no class has it
    assert!(matches!(find_class(&mut memory, &image.class_cache, 9), Err(Error::IoError(_))));
    // bucket 2 is empty
    assert!(matches!(find_class(&mut memory, &image.class_cache, 2), Err(Error::NullPtrError(_))));
}

#[test]
fn a_class_cache_without_buckets_is_in_no_usable_state() {
    let mut memory = Sparse::new();
    let table = memory.reserve(8);
    let names = memory.single_entry_table("", 0);
    let image = memory.image("image", names, table, 0);
    let image = Image::deserialize(&mut memory, Address::new(image)).unwrap();
    match find_class(&mut memory, &image.class_cache, 1) {
        Err(Error::InvalidStateError(text)) => assert_eq!(text, "class cache has no buckets"),
        _ => panic!("a cache without buckets cannot be searched"),
    }
}

/// A process whose runtime library begins at `base`, with the game's image
/// loaded and the class "GameManager" in it.
fn process(base: usize) -> Sparse {
    let mut memory = Sparse::new();
    // the text starts two pages after the base, and the first page is not mapped
    memory.map(base + 0x1000, 0x2000);
    memory.put(base + 0x2000, &text_section_pattern());
    let wanted = memory.class("GameManager", 0x0200_0005, 0);
    let other = memory.class("Other", 0x0200_0001, wanted);
    let class_table = memory.reserve(8 * 4);
    memory.put_usize(class_table + 8, other);
    let types = memory.single_entry_table("GameManager", 5);
    let names = memory.single_entry_table("", types as u64);
    let image = memory.image("Assembly-CSharp", names, class_table, 4);
    let images = memory.single_entry_table("Assembly-CSharp", image as u64);
    memory.map(base + 0x2000 + LOADED_IMAGES_OFFSET, 8);
    memory.put_usize(base + 0x2000 + LOADED_IMAGES_OFFSET, images);
    memory
}

#[test]
fn the_class_of_the_game_is_found_from_the_base_of_the_library() {
    let mut memory = process(0x4000_0000);
    let mut locator = Fixed(Some(0x4000_0000));
    let class = run(&mut locator, &mut memory).unwrap();
    assert_eq!(class.internals.name, "GameManager");
    assert_eq!(class.type_token(), 0x0200_0005);
}

#[test]
fn loaded_images_are_looked_up_by_name() {
    let mut memory = process(0x4000_0000);
    let images = LoadedImages::at(&mut memory, Address::new(0x4000_0000)).unwrap();
    let image = images.get_image(&mut memory, "Assembly-CSharp").unwrap().unwrap();
    assert_eq!(image.name, "Assembly-CSharp");
    assert!(images.get_image(&mut memory, "Missing").unwrap().is_none());
    let names = image.name_cache.value.get(&mut memory, &"".to_string()).unwrap().unwrap();
    assert_eq!(names.value.get(&mut memory, &"GameManager".to_string()).unwrap(), Some(5));
    assert_eq!(names.value.get(&mut memory, &"Nothing".to_string()).unwrap(), None);
}

#[test]
fn a_library_that_is_not_located_ends_the_run_before_any_read() {
    let mut memory = process(0x4000_0000);
    let mut locator = Fixed(None);
    assert!(matches!(run(&mut locator, &mut memory), Err(Error::IoError(_))));
    assert_eq!(memory.requests, 0);
}

#[test]
fn a_library_without_its_text_signature_is_an_error() {
    let mut memory = Sparse::new();
    memory.map(0x4000_0000, 0x1000);
    let mut locator = Fixed(Some(0x4000_0000));
    assert!(matches!(LoadedImages::new(&mut locator, &mut memory), Err(Error::IoError(_))));
    assert_eq!(memory.requests, MAX_OFFSET_BYTES / 4096);
}

#[test]
fn a_pointer_to_a_class_is_followed_on_demand() {
    let mut memory = Sparse::new();
    let parent = memory.class("Parent", 1, 0);
    let child = memory.class("Child", 2, 0);
    memory.put_usize(child + 40, parent);
    let child = Class::deserialize(&mut memory, Address::new(child)).unwrap();
    let pointer = child.internals.parent_ptr().unwrap();
    assert_eq!(pointer.deref(&mut memory).unwrap().internals.name, "Parent");
}

fn io_message(outcome: Result<Class, Error>) -> String {
    match outcome {
        Err(Error::IoError(error)) => error.to_string(),
        _ => panic!("the run must end with an error of its own"),
    }
}

#[test]
fn a_run_without_the_games_image_ends_there() {
    let mut memory = Sparse::new();
    let class_table = memory.reserve(8);
    let names = memory.single_entry_table("", 0);
    let other = memory.image("Other-Image", names, class_table, 1);
    let images = memory.single_entry_table("Other-Image", other as u64);
    memory.map(0x4000_0000, 0x1000);
    memory.put(0x4000_0000, &text_section_pattern());
    memory.map(0x4000_0000 + LOADED_IMAGES_OFFSET, 8);
    memory.put_usize(0x4000_0000 + LOADED_IMAGES_OFFSET, images);
    let mut locator = Fixed(Some(0x4000_0000));
    assert_eq!(io_message(run(&mut locator, &mut memory)), "Image not found");
    let images = LoadedImages::at(&mut memory, Address::new(0x4000_0000)).unwrap();
    assert_eq!(io_message(find_in_images(&mut memory, &images)), "Image not found");
}

#[test]
fn a_run_without_the_empty_namespace_or_the_class_ends_there() {
    let mut memory = Sparse::new();
    let class_table = memory.reserve(8 * 4);
    let types = memory.single_entry_table("SomethingElse", 5);
    let names = memory.single_entry_table("Game", types as u64);
    let image = memory.image("Assembly-CSharp", names, class_table, 4);
    let image = Image::deserialize(&mut memory, Address::new(image)).unwrap();
    assert_eq!(io_message(find_in_image(&mut memory, &image)), "Empty namespace not found");
    let types = grub_split::mono::GHashTable::<String, u64>::deserialize(&mut memory, Address::new(types)).unwrap();
    assert_eq!(io_message(find_in_names(&mut memory, &image, &types)), "GameManager type token not found");
}

#[test]
fn the_stages_of_a_run_can_be_taken_one_by_one() {
    let mut memory = process(0x4000_0000);
    let images = LoadedImages::at(&mut memory, Address::new(0x4000_0000)).unwrap();
    assert_eq!(find_in_images(&mut memory, &images).unwrap().internals.name, "GameManager");
    let image = images.get_image(&mut memory, "Assembly-CSharp").unwrap().unwrap();
    assert_eq!(find_in_image(&mut memory, &image).unwrap().type_token(), 0x0200_0005);
    let names = image.name_cache.value.get(&mut memory, &"".to_string()).unwrap().unwrap();
    assert_eq!(find_in_names(&mut memory, &image, &names.value).unwrap().internals.name, "GameManager");
}

use crate::deserialize::layout::FieldLayout;
use crate::memory::address::{Address, AddressRange};
use crate::memory::reader::{events_since, lemma_one_event, reads_once, MemoryReader, ReadEvent};
use std::marker::PhantomData;
use super::deserializetrait::{lemma_small_powers_of_two, Deserialize};
use super::error::Error;
use super::lazy::LazyDeserialize;
use super::native::{native_unsigned, usize_from_native};
use vstd::prelude::*;

verus! {

/// The number of bytes that a pointer takes in the other process.
pub const PTR_NUM_BYTES: usize = 8;

/// The alignment of a pointer in the other process.
pub const PTR_ALIGNMENT: usize = 8;

/// What a stored pointer value stands for: zero is no address at all, any
/// other value is the address with that offset.
pub open spec fn pointer_is(pointer: Option<Address>, raw: int) -> bool {
    if raw == 0 {
        pointer is None
    } else {
        pointer matches Some(address) && address@ == raw
    }
}

/// The address that a stored pointer value stands for, if any.
pub fn pointer_from_raw(raw: usize) -> (pointer: Option<Address>)
    ensures
        pointer_is(pointer, raw as int),
{
    if raw == 0 {
        None
    } else {
        Some(Address::new(raw))
    }
}

/// What reading a pointer at `address` does: one request for the pointer's
/// bytes, whose value in the machine's byte order is `raw`.
pub open spec fn reads_pointer(address: Address, events: Seq<ReadEvent>, raw: int) -> bool {
    &&& reads_once(events, address, PTR_NUM_BYTES)
    &&& events[0].outcome matches Ok(bytes) && raw == native_unsigned(bytes)
}

/// What reading a pointer at `address` does when the request fails.
pub open spec fn fails_to_read_pointer<T>(address: Address, events: Seq<ReadEvent>, outcome: Result<T, Error>) -> bool {
    &&& reads_once(events, address, PTR_NUM_BYTES)
    &&& events[0].outcome matches Err(e) && outcome == Err::<T, Error>(Error::IoError(e))
}

/// What reading a pointer at `address` does when the pointer may be absent:
/// one request for the pointer's bytes; zero decodes to no address.
pub open spec fn decodes_optional_pointer(
    address: Address,
    events: Seq<ReadEvent>,
    outcome: Result<Option<Address>, Error>,
) -> bool {
    ||| fails_to_read_pointer(address, events, outcome)
    ||| exists|raw: int| #[trigger]
        reads_pointer(address, events, raw) && if raw == 0 {
            outcome == Ok::<Option<Address>, Error>(None)
        } else {
            outcome matches Ok(Some(target)) && target@ == raw
        }
}

/// What reading a pointer at `address` does when the pointer must be present:
/// one request for the pointer's bytes; a zero is an error that names
/// `address`, where the zero was found.
pub open spec fn decodes_present_pointer(
    address: Address,
    events: Seq<ReadEvent>,
    outcome: Result<Address, Error>,
) -> bool {
    ||| fails_to_read_pointer(address, events, outcome)
    ||| exists|raw: int| #[trigger]
        reads_pointer(address, events, raw) && if raw == 0 {
            outcome == Err::<Address, Error>(Error::NullPtrError(address))
        } else {
            outcome matches Ok(target) && target@ == raw
        }
}

/// Asking of a pointer that was read as one that may be absent that it be
/// present comes to the same as reading it as one that must be present.
pub proof fn lemma_present_from_optional(
    address: Address,
    events: Seq<ReadEvent>,
    optional: Result<Option<Address>, Error>,
)
    requires
        decodes_optional_pointer(address, events, optional),
    ensures
        decodes_present_pointer(
            address,
            events,
            match optional {
                Ok(Some(target)) => Ok(target),
                Ok(None) => Err(Error::NullPtrError(address)),
                Err(error) => Err(error),
            },
        ),
{
    if !fails_to_read_pointer(address, events, optional) {
        let raw = choose|raw: int| #[trigger]
            reads_pointer(address, events, raw) && if raw == 0 {
                optional == Ok::<Option<Address>, Error>(None)
            } else {
                optional matches Ok(Some(target)) && target@ == raw
            };
        assert(reads_pointer(address, events, raw));
    }
}

/// An optional pointer that was decoded and is present is not zero.
pub proof fn lemma_optional_pointer_nonzero(
    address: Address,
    events: Seq<ReadEvent>,
    optional: Result<Option<Address>, Error>,
)
    requires
        decodes_optional_pointer(address, events, optional),
    ensures
        optional matches Ok(Some(target)) ==> target@ != 0,
{
}

/// A stored pointer decodes to no address exactly when its value is zero, and
/// else to the address with that value.
pub proof fn lemma_zero_is_absent(address: Address, events: Seq<ReadEvent>, pointer: Option<Address>)
    requires
        decodes_optional_pointer(address, events, Ok(pointer)),
    ensures
        reads_once(events, address, PTR_NUM_BYTES),
        events[0].outcome matches Ok(bytes) && (native_unsigned(bytes) == 0 <==> pointer is None) && (pointer matches Some(
            target,
        ) ==> target@ == native_unsigned(bytes)),
{
}

/// Following a pointer to an integer makes exactly one request: for the
/// integer's bytes, at the address that the pointer holds.
pub proof fn lemma_deref_reads_once(
    address: Address,
    events: Seq<ReadEvent>,
    byte: Result<u8, Error>,
    short: Result<u16, Error>,
    word: Result<u32, Error>,
    long: Result<u64, Error>,
    size: Result<usize, Error>,
)
    ensures
        Ptr::<u8>::spec_new(address).derefs(events, byte) ==> reads_once(events, address, u8::NUM_BYTES),
        Ptr::<u16>::spec_new(address).derefs(events, short) ==> reads_once(events, address, u16::NUM_BYTES),
        Ptr::<u32>::spec_new(address).derefs(events, word) ==> reads_once(events, address, u32::NUM_BYTES),
        Ptr::<u64>::spec_new(address).derefs(events, long) ==> reads_once(events, address, u64::NUM_BYTES),
        Ptr::<usize>::spec_new(address).derefs(events, size) ==> reads_once(events, address, usize::NUM_BYTES),
{
    <u8 as Deserialize>::lemma_layout();
    <u16 as Deserialize>::lemma_layout();
    <u32 as Deserialize>::lemma_layout();
    <u64 as Deserialize>::lemma_layout();
    <usize as Deserialize>::lemma_layout();
}

/// A pointer that was decoded and had to be present is not zero.
pub proof fn lemma_present_pointer_nonzero(address: Address, events: Seq<ReadEvent>, present: Result<Address, Error>)
    requires
        decodes_present_pointer(address, events, present),
    ensures
        present matches Ok(target) ==> target@ != 0,
{
}

impl Deserialize for Option<Address> {
    const NUM_BYTES: usize = 8;

    const ALIGNMENT: usize = 8;

    open spec fn layout() -> FieldLayout {
        FieldLayout { num_bytes: 8, alignment: 8 }
    }

    proof fn lemma_layout() {
        lemma_small_powers_of_two();
    }

    /// One request for a pointer; zero decodes to no address.
    open spec fn decodes(address: Address, events: Seq<ReadEvent>, outcome: Result<Self, Error>) -> bool {
        decodes_optional_pointer(address, events, outcome)
    }

    fn deserialize<M: MemoryReader>(reader: &mut M, address: Address) -> (r: Result<Self, Error>) {
        let ghost before = reader.history();
        let answer = reader.read(AddressRange::<PTR_NUM_BYTES> { start: address });
        proof {
            lemma_one_event(before, reader.history(), reader.history().last());
        }
        match answer {
            Ok(bytes) => {
                let addr_raw = usize_from_native(bytes);
                let pointer = pointer_from_raw(addr_raw);
                proof {
                    let events = events_since(before, reader.history());
                    assert(events[0].outcome == Ok::<Seq<u8>, std::io::Error>(bytes@));
                    assert(reads_pointer(address, events, addr_raw as int));
                    assert(decodes_optional_pointer(address, events, Ok(pointer)));
                    assert(<Option<Address> as Deserialize>::decodes(address, events, Ok(pointer)));
                }
                Ok(pointer)
            },
            Err(e) => {
                proof {
                    let events = events_since(before, reader.history());
                    assert(events[0].outcome == Err::<Seq<u8>, std::io::Error>(e));
                    assert(fails_to_read_pointer::<Option<Address>>(address, events, Err(Error::IoError(e))));
                }
                Err(Error::IoError(e))
            },
        }
    }
}

impl Deserialize for Address {
    const NUM_BYTES: usize = 8;

    const ALIGNMENT: usize = 8;

    open spec fn layout() -> FieldLayout {
        FieldLayout { num_bytes: 8, alignment: 8 }
    }

    proof fn lemma_layout() {
        lemma_small_powers_of_two();
    }

    /// One request for a pointer, which must not be zero.
    open spec fn decodes(address: Address, events: Seq<ReadEvent>, outcome: Result<Self, Error>) -> bool {
        decodes_present_pointer(address, events, outcome)
    }

    fn deserialize<M: MemoryReader>(reader: &mut M, address: Address) -> (r: Result<Self, Error>) {
        let ghost before = reader.history();
        let optional = Option::<Address>::deserialize(reader, address);
        proof {
            lemma_present_from_optional(address, events_since(before, reader.history()), optional);
        }
        match optional {
            Ok(Some(addr)) => Ok(addr),
            Ok(None) => Err(Error::NullPtrError(address)),
            Err(e) => Err(e),
        }
    }
}

/// A pointer to a value of type `T` in the other process. It holds the
/// address only; the value is read when [`LazyDeserialize::deref`] is called.
#[derive(Debug)]
pub struct Ptr<T> {
    address: Address,
    deref_type: PhantomData<T>,
}

impl<T> Ptr<T> {
    /// The address that this pointer holds.
    pub closed spec fn target(&self) -> Address {
        self.address
    }

    /// The pointer that holds `address`.
    pub closed spec fn spec_new(address: Address) -> Self {
        Ptr { address, deref_type: PhantomData }
    }

    /// A pointer to the value at `address`.
    pub fn new(address: Address) -> (r: Self)
        ensures
            r == Self::spec_new(address),
            r.target() == address,
    {
        Ptr { address, deref_type: PhantomData }
    }

    /// The address that this pointer holds.
    pub fn address(&self) -> (r: Address)
        ensures
            r == self.target(),
    {
        self.address
    }
}

/// The address behind a pointer that was decoded, or the error in its place.
pub open spec fn ptr_target<T>(outcome: Result<Ptr<T>, Error>) -> Result<Address, Error> {
    match outcome {
        Ok(pointer) => Ok(pointer.target()),
        Err(error) => Err(error),
    }
}

/// The address behind an optional pointer that was decoded, or the error in
/// its place.
pub open spec fn optional_ptr_target<T>(outcome: Result<Option<Ptr<T>>, Error>) -> Result<
    Option<Address>,
    Error,
> {
    match outcome {
        Ok(Some(pointer)) => Ok(Some(pointer.target())),
        Ok(None) => Ok(None),
        Err(error) => Err(error),
    }
}

impl<T: Deserialize> LazyDeserialize for Ptr<T> {
    type Deserialized = T;

    /// Following a pointer is decoding a `T` at the address it holds.
    open spec fn derefs(&self, events: Seq<ReadEvent>, outcome: Result<T, Error>) -> bool {
        T::decodes(self.target(), events, outcome)
    }

    fn deref<M: MemoryReader>(&self, reader: &mut M) -> (r: Result<T, Error>) {
        T::deserialize(reader, self.address)
    }
}

impl<T> Deserialize for Option<Ptr<T>> {
    const NUM_BYTES: usize = 8;

    const ALIGNMENT: usize = 8;

    open spec fn layout() -> FieldLayout {
        FieldLayout { num_bytes: 8, alignment: 8 }
    }

    proof fn lemma_layout() {
        lemma_small_powers_of_two();
    }

    /// One request for a pointer; zero decodes to no pointer. The pointee is
    /// not read.
    open spec fn decodes(address: Address, events: Seq<ReadEvent>, outcome: Result<Self, Error>) -> bool {
        decodes_optional_pointer(address, events, optional_ptr_target(outcome))
    }

    fn deserialize<M: MemoryReader>(reader: &mut M, address: Address) -> (r: Result<Self, Error>) {
        match Option::<Address>::deserialize(reader, address) {
            Ok(Some(pointed_addr)) => Ok(Some(Ptr::new(pointed_addr))),
            Ok(None) => Ok(None),
            Err(e) => Err(e),
        }
    }
}

impl<T> Deserialize for Ptr<T> {
    const NUM_BYTES: usize = 8;

    const ALIGNMENT: usize = 8;

    open spec fn layout() -> FieldLayout {
        FieldLayout { num_bytes: 8, alignment: 8 }
    }

    proof fn lemma_layout() {
        lemma_small_powers_of_two();
    }

    /// One request for a pointer, which must not be zero. The pointee is not
    /// read.
    open spec fn decodes(address: Address, events: Seq<ReadEvent>, outcome: Result<Self, Error>) -> bool {
        decodes_present_pointer(address, events, ptr_target(outcome))
    }

    fn deserialize<M: MemoryReader>(reader: &mut M, address: Address) -> (r: Result<Self, Error>) {
        let ghost before = reader.history();
        let optional = Option::<Ptr<T>>::deserialize(reader, address);
        proof {
            lemma_present_from_optional(
                address,
                events_since(before, reader.history()),
                optional_ptr_target(optional),
            );
        }
        match optional {
            Ok(Some(ptr)) => Ok(ptr),
            Ok(None) => Err(Error::NullPtrError(address)),
            Err(e) => Err(e),
        }
    }
}

} // verus!

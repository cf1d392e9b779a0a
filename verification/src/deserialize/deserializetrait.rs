use crate::memory::address::{is_power_of_two, Address, AddressRange};
use crate::memory::reader::{events_since, lemma_one_event, reads_once, MemoryReader, ReadEvent};
use super::error::Error;
use super::layout::FieldLayout;
use super::native::{
    i16_from_native, i32_from_native, i64_from_native, i8_from_native, isize_from_native,
    native_signed, native_unsigned, u16_from_native, u32_from_native, u64_from_native,
    usize_from_native,
};
use vstd::prelude::*;

verus! {

/// The largest alignment that a value has in the other process: that of a
/// pointer.
pub const MAX_ALIGNMENT: usize = 8;

/// Trait for types that can be deserialized from a fixed-length contiguous byte
/// sequence.
///
/// Besides the two constants and [`Deserialize::deserialize`], a type says in
/// [`Deserialize::decodes`] what its deserialization does, as a relation
/// between the address, the requests that are made of the reader with their
/// answers, and the outcome. That relation, [`Deserialize::layout`] and
/// [`Deserialize::lemma_layout`] are there for contracts only and are never
/// run: a type that is not itself verified may give them any body.
pub trait Deserialize: Sized {
    /// The number of bytes that are required for deserialization.
    const NUM_BYTES: usize;

    /// The required alignment of the bytes: a power of two, and no more than
    /// [`MAX_ALIGNMENT`].
    const ALIGNMENT: usize;

    /// The size and the alignment, as contracts speak of them.
    spec fn layout() -> FieldLayout;

    /// The constants hold the layout. The alignment is a power of two, and no
    /// more than [`MAX_ALIGNMENT`].
    proof fn lemma_layout()
        ensures
            Self::layout() == (FieldLayout { num_bytes: Self::NUM_BYTES, alignment: Self::ALIGNMENT }),
            is_power_of_two(Self::ALIGNMENT as int),
            Self::ALIGNMENT <= MAX_ALIGNMENT,
    ;

    /// What deserializing at `address` does: it makes exactly the requests in
    /// `events`, in that order, and from their answers arrives at `outcome`.
    spec fn decodes(address: Address, events: Seq<ReadEvent>, outcome: Result<Self, Error>) -> bool;

    /// Attempts to deserialize an instance from memory starting at `address`
    /// using `reader`.
    ///
    /// If `address` is not aligned to [`Deserialize::ALIGNMENT`], what is read
    /// is still what [`Deserialize::decodes`] says, but it may not be what the
    /// other process meant.
    fn deserialize<M: MemoryReader>(reader: &mut M, address: Address) -> (r: Result<Self, Error>)
        ensures
            old(reader).history().is_prefix_of(final(reader).history()),
            Self::decodes(address, events_since(old(reader).history(), final(reader).history()), r),
    ;
}

/// The small powers of two that serve as alignments of the primitive types.
pub proof fn lemma_small_powers_of_two()
    ensures
        is_power_of_two(1),
        is_power_of_two(2),
        is_power_of_two(4),
        is_power_of_two(8),
{
    reveal_with_fuel(vstd::arithmetic::power2::is_pow2, 5);
}

/// What a decoder that makes one request of `num_bytes` bytes at `address`
/// does when the request fails: it hands the failure on.
pub open spec fn read_failure<T>(answer: Result<Seq<u8>, std::io::Error>, outcome: Result<T, Error>) -> bool {
    answer matches Err(e) ==> outcome == Err::<T, Error>(Error::IoError(e))
}

impl Deserialize for u8 {
    const NUM_BYTES: usize = 1;

    const ALIGNMENT: usize = 1;

    open spec fn layout() -> FieldLayout {
        FieldLayout { num_bytes: 1, alignment: 1 }
    }

    proof fn lemma_layout() {
        lemma_small_powers_of_two();
    }

    /// One request for a single byte, which is the value.
    open spec fn decodes(address: Address, events: Seq<ReadEvent>, outcome: Result<Self, Error>) -> bool {
        &&& reads_once(events, address, 1)
        &&& read_failure(events[0].outcome, outcome)
        &&& events[0].outcome matches Ok(bytes) ==> outcome == Ok::<Self, Error>(bytes[0])
    }

    fn deserialize<M: MemoryReader>(reader: &mut M, address: Address) -> (r: Result<Self, Error>) {
        let ghost before = reader.history();
        let answer = reader.read(AddressRange::<1> { start: address });
        proof {
            lemma_one_event(before, reader.history(), reader.history().last());
        }
        match answer {
            Ok(bytes) => Ok(bytes[0]),
            Err(e) => Err(Error::IoError(e)),
        }
    }
}

impl Deserialize for bool {
    const NUM_BYTES: usize = 1;

    const ALIGNMENT: usize = 1;

    open spec fn layout() -> FieldLayout {
        FieldLayout { num_bytes: 1, alignment: 1 }
    }

    proof fn lemma_layout() {
        lemma_small_powers_of_two();
    }

    /// One request for a single byte, which stands for `true` unless it is zero.
    open spec fn decodes(address: Address, events: Seq<ReadEvent>, outcome: Result<Self, Error>) -> bool {
        &&& reads_once(events, address, 1)
        &&& read_failure(events[0].outcome, outcome)
        &&& events[0].outcome matches Ok(bytes) ==> outcome == Ok::<Self, Error>(bytes[0] != 0)
    }

    fn deserialize<M: MemoryReader>(reader: &mut M, address: Address) -> (r: Result<Self, Error>) {
        let ghost before = reader.history();
        let answer = reader.read(AddressRange::<1> { start: address });
        proof {
            lemma_one_event(before, reader.history(), reader.history().last());
        }
        match answer {
            Ok(bytes) => Ok(bytes[0] != 0),
            Err(e) => Err(Error::IoError(e)),
        }
    }
}

impl Deserialize for i8 {
    const NUM_BYTES: usize = 1;

    const ALIGNMENT: usize = 1;

    open spec fn layout() -> FieldLayout {
        FieldLayout { num_bytes: 1, alignment: 1 }
    }

    proof fn lemma_layout() {
        lemma_small_powers_of_two();
    }

    /// One request for a single byte, read in the machine's byte order as a two's
    /// complement integer.
    open spec fn decodes(address: Address, events: Seq<ReadEvent>, outcome: Result<Self, Error>) -> bool {
        &&& reads_once(events, address, 1)
        &&& read_failure(events[0].outcome, outcome)
        &&& events[0].outcome matches Ok(bytes) ==> outcome matches Ok(value) && value as int == native_signed(bytes)
    }

    fn deserialize<M: MemoryReader>(reader: &mut M, address: Address) -> (r: Result<Self, Error>) {
        let ghost before = reader.history();
        let answer = reader.read(AddressRange::<1> { start: address });
        proof {
            lemma_one_event(before, reader.history(), reader.history().last());
        }
        match answer {
            Ok(bytes) => Ok(i8_from_native(bytes)),
            Err(e) => Err(Error::IoError(e)),
        }
    }
}

impl Deserialize for u16 {
    const NUM_BYTES: usize = 2;

    const ALIGNMENT: usize = 2;

    open spec fn layout() -> FieldLayout {
        FieldLayout { num_bytes: 2, alignment: 2 }
    }

    proof fn lemma_layout() {
        lemma_small_powers_of_two();
    }

    /// One request for two bytes, read in the machine's byte order.
    open spec fn decodes(address: Address, events: Seq<ReadEvent>, outcome: Result<Self, Error>) -> bool {
        &&& reads_once(events, address, 2)
        &&& read_failure(events[0].outcome, outcome)
        &&& events[0].outcome matches Ok(bytes) ==> outcome matches Ok(value) && value as int == native_unsigned(bytes)
    }

    fn deserialize<M: MemoryReader>(reader: &mut M, address: Address) -> (r: Result<Self, Error>) {
        let ghost before = reader.history();
        let answer = reader.read(AddressRange::<2> { start: address });
        proof {
            lemma_one_event(before, reader.history(), reader.history().last());
        }
        match answer {
            Ok(bytes) => Ok(u16_from_native(bytes)),
            Err(e) => Err(Error::IoError(e)),
        }
    }
}

impl Deserialize for i16 {
    const NUM_BYTES: usize = 2;

    const ALIGNMENT: usize = 2;

    open spec fn layout() -> FieldLayout {
        FieldLayout { num_bytes: 2, alignment: 2 }
    }

    proof fn lemma_layout() {
        lemma_small_powers_of_two();
    }

    /// One request for two bytes, read in the machine's byte order as a two's
    /// complement integer.
    open spec fn decodes(address: Address, events: Seq<ReadEvent>, outcome: Result<Self, Error>) -> bool {
        &&& reads_once(events, address, 2)
        &&& read_failure(events[0].outcome, outcome)
        &&& events[0].outcome matches Ok(bytes) ==> outcome matches Ok(value) && value as int == native_signed(bytes)
    }

    fn deserialize<M: MemoryReader>(reader: &mut M, address: Address) -> (r: Result<Self, Error>) {
        let ghost before = reader.history();
        let answer = reader.read(AddressRange::<2> { start: address });
        proof {
            lemma_one_event(before, reader.history(), reader.history().last());
        }
        match answer {
            Ok(bytes) => Ok(i16_from_native(bytes)),
            Err(e) => Err(Error::IoError(e)),
        }
    }
}

impl Deserialize for u32 {
    const NUM_BYTES: usize = 4;

    const ALIGNMENT: usize = 4;

    open spec fn layout() -> FieldLayout {
        FieldLayout { num_bytes: 4, alignment: 4 }
    }

    proof fn lemma_layout() {
        lemma_small_powers_of_two();
    }

    /// One request for four bytes, read in the machine's byte order.
    open spec fn decodes(address: Address, events: Seq<ReadEvent>, outcome: Result<Self, Error>) -> bool {
        &&& reads_once(events, address, 4)
        &&& read_failure(events[0].outcome, outcome)
        &&& events[0].outcome matches Ok(bytes) ==> outcome matches Ok(value) && value as int == native_unsigned(bytes)
    }

    fn deserialize<M: MemoryReader>(reader: &mut M, address: Address) -> (r: Result<Self, Error>) {
        let ghost before = reader.history();
        let answer = reader.read(AddressRange::<4> { start: address });
        proof {
            lemma_one_event(before, reader.history(), reader.history().last());
        }
        match answer {
            Ok(bytes) => Ok(u32_from_native(bytes)),
            Err(e) => Err(Error::IoError(e)),
        }
    }
}

impl Deserialize for i32 {
    const NUM_BYTES: usize = 4;

    const ALIGNMENT: usize = 4;

    open spec fn layout() -> FieldLayout {
        FieldLayout { num_bytes: 4, alignment: 4 }
    }

    proof fn lemma_layout() {
        lemma_small_powers_of_two();
    }

    /// One request for four bytes, read in the machine's byte order as a two's
    /// complement integer.
    open spec fn decodes(address: Address, events: Seq<ReadEvent>, outcome: Result<Self, Error>) -> bool {
        &&& reads_once(events, address, 4)
        &&& read_failure(events[0].outcome, outcome)
        &&& events[0].outcome matches Ok(bytes) ==> outcome matches Ok(value) && value as int == native_signed(bytes)
    }

    fn deserialize<M: MemoryReader>(reader: &mut M, address: Address) -> (r: Result<Self, Error>) {
        let ghost before = reader.history();
        let answer = reader.read(AddressRange::<4> { start: address });
        proof {
            lemma_one_event(before, reader.history(), reader.history().last());
        }
        match answer {
            Ok(bytes) => Ok(i32_from_native(bytes)),
            Err(e) => Err(Error::IoError(e)),
        }
    }
}

impl Deserialize for u64 {
    const NUM_BYTES: usize = 8;

    const ALIGNMENT: usize = 8;

    open spec fn layout() -> FieldLayout {
        FieldLayout { num_bytes: 8, alignment: 8 }
    }

    proof fn lemma_layout() {
        lemma_small_powers_of_two();
    }

    /// One request for eight bytes, read in the machine's byte order.
    open spec fn decodes(address: Address, events: Seq<ReadEvent>, outcome: Result<Self, Error>) -> bool {
        &&& reads_once(events, address, 8)
        &&& read_failure(events[0].outcome, outcome)
        &&& events[0].outcome matches Ok(bytes) ==> outcome matches Ok(value) && value as int == native_unsigned(bytes)
    }

    fn deserialize<M: MemoryReader>(reader: &mut M, address: Address) -> (r: Result<Self, Error>) {
        let ghost before = reader.history();
        let answer = reader.read(AddressRange::<8> { start: address });
        proof {
            lemma_one_event(before, reader.history(), reader.history().last());
        }
        match answer {
            Ok(bytes) => Ok(u64_from_native(bytes)),
            Err(e) => Err(Error::IoError(e)),
        }
    }
}

impl Deserialize for i64 {
    const NUM_BYTES: usize = 8;

    const ALIGNMENT: usize = 8;

    open spec fn layout() -> FieldLayout {
        FieldLayout { num_bytes: 8, alignment: 8 }
    }

    proof fn lemma_layout() {
        lemma_small_powers_of_two();
    }

    /// One request for eight bytes, read in the machine's byte order as a two's
    /// complement integer.
    open spec fn decodes(address: Address, events: Seq<ReadEvent>, outcome: Result<Self, Error>) -> bool {
        &&& reads_once(events, address, 8)
        &&& read_failure(events[0].outcome, outcome)
        &&& events[0].outcome matches Ok(bytes) ==> outcome matches Ok(value) && value as int == native_signed(bytes)
    }

    fn deserialize<M: MemoryReader>(reader: &mut M, address: Address) -> (r: Result<Self, Error>) {
        let ghost before = reader.history();
        let answer = reader.read(AddressRange::<8> { start: address });
        proof {
            lemma_one_event(before, reader.history(), reader.history().last());
        }
        match answer {
            Ok(bytes) => Ok(i64_from_native(bytes)),
            Err(e) => Err(Error::IoError(e)),
        }
    }
}

impl Deserialize for usize {
    const NUM_BYTES: usize = 8;

    const ALIGNMENT: usize = 8;

    open spec fn layout() -> FieldLayout {
        FieldLayout { num_bytes: 8, alignment: 8 }
    }

    proof fn lemma_layout() {
        lemma_small_powers_of_two();
    }

    /// One request for eight bytes, read in the machine's byte order.
    open spec fn decodes(address: Address, events: Seq<ReadEvent>, outcome: Result<Self, Error>) -> bool {
        &&& reads_once(events, address, 8)
        &&& read_failure(events[0].outcome, outcome)
        &&& events[0].outcome matches Ok(bytes) ==> outcome matches Ok(value) && value as int == native_unsigned(bytes)
    }

    fn deserialize<M: MemoryReader>(reader: &mut M, address: Address) -> (r: Result<Self, Error>) {
        let ghost before = reader.history();
        let answer = reader.read(AddressRange::<8> { start: address });
        proof {
            lemma_one_event(before, reader.history(), reader.history().last());
        }
        match answer {
            Ok(bytes) => Ok(usize_from_native(bytes)),
            Err(e) => Err(Error::IoError(e)),
        }
    }
}

impl Deserialize for isize {
    const NUM_BYTES: usize = 8;

    const ALIGNMENT: usize = 8;

    open spec fn layout() -> FieldLayout {
        FieldLayout { num_bytes: 8, alignment: 8 }
    }

    proof fn lemma_layout() {
        lemma_small_powers_of_two();
    }

    /// One request for eight bytes, read in the machine's byte order as a two's
    /// complement integer.
    open spec fn decodes(address: Address, events: Seq<ReadEvent>, outcome: Result<Self, Error>) -> bool {
        &&& reads_once(events, address, 8)
        &&& read_failure(events[0].outcome, outcome)
        &&& events[0].outcome matches Ok(bytes) ==> outcome matches Ok(value) && value as int == native_signed(bytes)
    }

    fn deserialize<M: MemoryReader>(reader: &mut M, address: Address) -> (r: Result<Self, Error>) {
        let ghost before = reader.history();
        let answer = reader.read(AddressRange::<8> { start: address });
        proof {
            lemma_one_event(before, reader.history(), reader.history().last());
        }
        match answer {
            Ok(bytes) => Ok(isize_from_native(bytes)),
            Err(e) => Err(Error::IoError(e)),
        }
    }
}

} // verus!


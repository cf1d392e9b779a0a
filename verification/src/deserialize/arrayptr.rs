use crate::deserialize::layout::FieldLayout;
use crate::memory::address::{align_up, lemma_align_up_bounds, Address};
use crate::memory::reader::{events_since, lemma_events_chain, lemma_no_events, MemoryReader, ReadEvent};
use std::marker::PhantomData;
use super::deserializetrait::{lemma_small_powers_of_two, Deserialize};
use super::error::Error;
use super::ptr::{decodes_optional_pointer, decodes_present_pointer, lemma_present_from_optional};
use super::segments::{lemma_segments_extend, lemma_segments_push, segments};
use vstd::prelude::*;

verus! {

/// The distance from one element of an array of `T` to the next: the size of
/// `T` rounded up to its alignment.
pub open spec fn padded_size<T: Deserialize>() -> int {
    align_up(T::NUM_BYTES as int, T::ALIGNMENT as int)
}

/// Where element `index` of an array of `T` lies that begins at `base`.
pub open spec fn element_address<T: Deserialize>(base: Address, index: int) -> int {
    base@ + index * padded_size::<T>()
}

/// What reading element `index` of an array of `T` at `base` does: the
/// element is decoded at its address; an address out of reach is reported
/// against `base`, with nothing read.
pub open spec fn element_step<T: Deserialize>(
    base: Address,
    index: int,
    events: Seq<ReadEvent>,
    outcome: Result<T, Error>,
) -> bool {
    if padded_size::<T>() > usize::MAX || element_address::<T>(base, index) > usize::MAX {
        events.len() == 0 && outcome == Err::<T, Error>(Error::AddressOverflowError(base))
    } else {
        T::decodes(Address(element_address::<T>(base, index) as usize), events, outcome)
    }
}

/// What the reading of element `index` of an array of `T` at `base` did to
/// arrive at a value.
pub open spec fn element_read<T: Deserialize>(base: Address) -> spec_fn(int, Seq<ReadEvent>, T) -> bool {
    |index: int, events: Seq<ReadEvent>, value: T| element_step::<T>(base, index, events, Ok(value))
}

/// `events` begins with the reading of the elements `values`, one after the
/// other from index 0, with the stretches of `events` that `cuts` marks.
pub open spec fn elements_read<T: Deserialize>(
    base: Address,
    values: Seq<T>,
    cuts: Seq<int>,
    events: Seq<ReadEvent>,
) -> bool {
    segments(values, cuts, events, element_read::<T>(base))
}

/// What reading `count` elements of an array of `T` at `base` does: the
/// elements are read in index order, and the first failure ends the reading
/// and is the outcome.
pub open spec fn range_step<T: Deserialize>(
    base: Address,
    count: int,
    events: Seq<ReadEvent>,
    outcome: Result<Seq<T>, Error>,
) -> bool {
    match outcome {
        Ok(values) => {
            &&& values.len() == count
            &&& exists|cuts: Seq<int>| #[trigger]
                elements_read::<T>(base, values, cuts, events) && cuts.last() == events.len()
        },
        Err(error) => exists|values: Seq<T>, cuts: Seq<int>|
            {
                &&& values.len() < count
                &&& #[trigger] elements_read::<T>(base, values, cuts, events)
                &&& element_step::<T>(base, values.len() as int, events.skip(cuts.last()), Err(error))
            },
    }
}

/// When `count` elements were read, each element `index` among them was
/// decoded at `base + index * padded_size`, with a stretch of the requests
/// of its own.
pub proof fn lemma_range_reads_each_element<T: Deserialize>(
    base: Address,
    count: int,
    events: Seq<ReadEvent>,
    values: Seq<T>,
    index: int,
)
    requires
        range_step::<T>(base, count, events, Ok(values)),
        0 <= index < count,
    ensures
        exists|from: int, to: int|
            0 <= from <= to <= events.len() && #[trigger] element_step::<T>(
                base,
                index,
                events.subrange(from, to),
                Ok(values[index]),
            ),
        element_address::<T>(base, index) == base@ + index * align_up(T::NUM_BYTES as int, T::ALIGNMENT as int),
        element_address::<T>(base, index) <= usize::MAX && padded_size::<T>() <= usize::MAX ==> exists|
            from: int,
            to: int,
        |
            0 <= from <= to <= events.len() && #[trigger] T::decodes(
                Address(element_address::<T>(base, index) as usize),
                events.subrange(from, to),
                Ok(values[index]),
            ),
{
    let cuts = choose|cuts: Seq<int>| #[trigger]
        elements_read::<T>(base, values, cuts, events) && cuts.last() == events.len();
    crate::deserialize::segments::lemma_cuts_ordered(values, cuts, events, element_read::<T>(base), index);
    crate::deserialize::segments::lemma_cuts_ordered(values, cuts, events, element_read::<T>(base), index + 1);
    assert(cuts[index] <= cuts[index + 1]);
    assert(element_step::<T>(base, index, events.subrange(cuts[index], cuts[index + 1]), Ok(values[index])));
}

/// The elements of a result that holds a vector.
pub open spec fn vec_outcome<T>(outcome: Result<Vec<T>, Error>) -> Result<Seq<T>, Error> {
    match outcome {
        Ok(values) => Ok(values@),
        Err(error) => Err(error),
    }
}

/// A pointer to the first of a run of values of type `T` in the other
/// process, each padded to the alignment of `T`. The pointer holds no length:
/// whoever reads through it says how many elements there are.
#[derive(Debug)]
pub struct ArrayPtr<T> {
    address: Address,
    deref_type: PhantomData<T>,
}

impl<T> ArrayPtr<T> {
    /// The address of the first element.
    pub closed spec fn target(&self) -> Address {
        self.address
    }

    /// A pointer to the array whose first element lies at `address`.
    pub fn new(address: Address) -> (r: Self)
        ensures
            r.target() == address,
    {
        ArrayPtr { address, deref_type: PhantomData }
    }

    /// The address of the first element.
    pub fn address(&self) -> (r: Address)
        ensures
            r == self.target(),
    {
        self.address
    }
}

impl<T: Deserialize> ArrayPtr<T> {

    /// The address of element `index`, or `None` when it is out of reach.
    pub fn element_address(&self, index: usize) -> (r: Option<Address>)
        ensures
            r matches Some(address) ==> address@ == element_address::<T>(self.target(), index as int),
            r is Some <==> padded_size::<T>() <= usize::MAX && element_address::<T>(self.target(), index as int)
                <= usize::MAX,
    {
        proof {
            T::lemma_layout();
            crate::deserialize::layout::lemma_power_of_two_positive(T::ALIGNMENT as int);
            lemma_align_up_bounds(T::NUM_BYTES as int, T::ALIGNMENT as int);
        }
        let padded_element_size: usize = match Address::new(T::NUM_BYTES).checked_align_forward(T::ALIGNMENT) {
            Some(padded) => padded.raw(),
            None => {
                return None;
            },
        };
        assert(index * padded_element_size >= 0) by (nonlinear_arith)
            requires
                index >= 0,
                padded_element_size >= 0,
        ;
        match index.checked_mul(padded_element_size) {
            Some(offset) => self.address.checked_add(offset),
            None => None,
        }
    }

    /// Reads the element at `index`.
    pub fn nth_element<M: MemoryReader>(&self, reader: &mut M, index: usize) -> (r: Result<T, Error>)
        ensures
            old(reader).history().is_prefix_of(final(reader).history()),
            element_step::<T>(
                self.target(),
                index as int,
                events_since(old(reader).history(), final(reader).history()),
                r,
            ),
    {
        proof {
            lemma_no_events(reader.history());
        }
        match self.element_address(index) {
            Some(address) => T::deserialize(reader, address),
            None => Err(Error::AddressOverflowError(self.address)),
        }
    }

    /// Reads the first `size` elements, in index order. The first element
    /// that cannot be read ends the reading, and nothing is returned but its
    /// error.
    pub fn deref<M: MemoryReader>(&self, reader: &mut M, size: usize) -> (r: Result<Vec<T>, Error>)
        ensures
            old(reader).history().is_prefix_of(final(reader).history()),
            range_step::<T>(
                self.target(),
                size as int,
                events_since(old(reader).history(), final(reader).history()),
                vec_outcome(r),
            ),
    {
        let ghost start = reader.history();
        let ghost mut cuts: Seq<int> = seq![0int];
        let mut result: Vec<T> = Vec::new();
        let mut index: usize = 0;
        proof {
            lemma_no_events(start);
        }
        while index < size
            invariant
                0 <= index <= size,
                result@.len() == index,
                start == old(reader).history(),
                start.is_prefix_of(reader.history()),
                elements_read::<T>(self.target(), result@, cuts, events_since(start, reader.history())),
                cuts.last() == events_since(start, reader.history()).len(),
            decreases size - index,
        {
            let ghost before = reader.history();
            match self.nth_element(reader, index) {
                Ok(value) => {
                    proof {
                        lemma_events_chain(start, before, reader.history());
                        lemma_segments_push(
                            result@,
                            cuts,
                            events_since(start, before),
                            element_read::<T>(self.target()),
                            events_since(start, reader.history()),
                            element_read::<T>(self.target()),
                            value,
                        );
                        cuts = cuts.push(events_since(start, reader.history()).len() as int);
                    }
                    result.push(value);
                },
                Err(error) => {
                    proof {
                        lemma_events_chain(start, before, reader.history());
                        lemma_segments_extend(
                            result@,
                            cuts,
                            events_since(start, before),
                            element_read::<T>(self.target()),
                            events_since(start, reader.history()),
                            element_read::<T>(self.target()),
                        );
                    }
                    assert(elements_read::<T>(self.target(), result@, cuts, events_since(start, reader.history())));
                    assert(events_since(start, reader.history()).skip(cuts.last()) == events_since(before, reader.history()));
                    return Err(error);
                },
            }
            index += 1;
        }
        assert(elements_read::<T>(self.target(), result@, cuts, events_since(start, reader.history())));
        Ok(result)
    }
}

/// The address behind an array pointer that was decoded, or the error in its
/// place.
pub open spec fn array_ptr_target<T>(outcome: Result<ArrayPtr<T>, Error>) -> Result<Address, Error> {
    match outcome {
        Ok(pointer) => Ok(pointer.target()),
        Err(error) => Err(error),
    }
}

/// The address behind an optional array pointer that was decoded, or the
/// error in its place.
pub open spec fn optional_array_ptr_target<T>(outcome: Result<Option<ArrayPtr<T>>, Error>) -> Result<
    Option<Address>,
    Error,
> {
    match outcome {
        Ok(Some(pointer)) => Ok(Some(pointer.target())),
        Ok(None) => Ok(None),
        Err(error) => Err(error),
    }
}

impl<T> Deserialize for Option<ArrayPtr<T>> {
    const NUM_BYTES: usize = 8;

    const ALIGNMENT: usize = 8;

    open spec fn layout() -> FieldLayout {
        FieldLayout { num_bytes: 8, alignment: 8 }
    }

    proof fn lemma_layout() {
        lemma_small_powers_of_two();
    }

    /// One request for a pointer; zero decodes to no pointer. No element is
    /// read.
    open spec fn decodes(address: Address, events: Seq<ReadEvent>, outcome: Result<Self, Error>) -> bool {
        decodes_optional_pointer(address, events, optional_array_ptr_target(outcome))
    }

    fn deserialize<M: MemoryReader>(reader: &mut M, address: Address) -> (r: Result<Self, Error>) {
        match Option::<Address>::deserialize(reader, address) {
            Ok(Some(pointed_addr)) => Ok(Some(ArrayPtr::new(pointed_addr))),
            Ok(None) => Ok(None),
            Err(e) => Err(e),
        }
    }
}

impl<T> Deserialize for ArrayPtr<T> {
    const NUM_BYTES: usize = 8;

    const ALIGNMENT: usize = 8;

    open spec fn layout() -> FieldLayout {
        FieldLayout { num_bytes: 8, alignment: 8 }
    }

    proof fn lemma_layout() {
        lemma_small_powers_of_two();
    }

    /// One request for a pointer, which must not be zero. No element is read.
    open spec fn decodes(address: Address, events: Seq<ReadEvent>, outcome: Result<Self, Error>) -> bool {
        decodes_present_pointer(address, events, array_ptr_target(outcome))
    }

    fn deserialize<M: MemoryReader>(reader: &mut M, address: Address) -> (r: Result<Self, Error>) {
        let ghost before = reader.history();
        let optional = Option::<ArrayPtr<T>>::deserialize(reader, address);
        proof {
            lemma_present_from_optional(
                address,
                events_since(before, reader.history()),
                optional_array_ptr_target(optional),
            );
        }
        match optional {
            Ok(Some(ptr)) => Ok(ptr),
            Ok(None) => Err(Error::NullPtrError(address)),
            Err(e) => Err(e),
        }
    }
}

} // verus!

use crate::deserialize::layout::FieldLayout;
use crate::memory::address::{align_up, Address};
use crate::memory::reader::{events_since, lemma_no_events, MemoryReader, ReadEvent};
use super::arrayptr::{element_step, range_step, vec_outcome, ArrayPtr};
use super::deserializetrait::Deserialize;
use super::error::Error;
use vstd::prelude::*;

verus! {

/// An array at the end of a structure that takes no room in the structure
/// itself: its elements follow the structure in memory.
pub struct ZeroLengthArray<T: Deserialize> {
    array_ptr: ArrayPtr<T>,
}

impl<T: Deserialize> ZeroLengthArray<T> {
    /// The address of the first element.
    pub closed spec fn target(&self) -> Address {
        self.array_ptr.target()
    }

    /// Reads the element at `index`.
    pub fn nth_element<M: MemoryReader>(&self, reader: &mut M, index: usize) -> (r: Result<T, Error>)
        ensures
            old(reader).history().is_prefix_of(final(reader).history()),
            element_step::<T>(
                self.target(),
                index as int,
                events_since(old(reader).history(), final(reader).history()),
                r,
            ),
    {
        self.array_ptr.nth_element(reader, index)
    }

    /// Reads the first `size` elements, in index order.
    pub fn deref<M: MemoryReader>(&self, reader: &mut M, size: usize) -> (r: Result<Vec<T>, Error>)
        ensures
            old(reader).history().is_prefix_of(final(reader).history()),
            range_step::<T>(
                self.target(),
                size as int,
                events_since(old(reader).history(), final(reader).history()),
                vec_outcome(r),
            ),
    {
        self.array_ptr.deref(reader, size)
    }
}

impl<T: Deserialize> Deserialize for ZeroLengthArray<T> {
    const NUM_BYTES: usize = 0;

    const ALIGNMENT: usize = T::ALIGNMENT;

    open spec fn layout() -> FieldLayout {
        FieldLayout { num_bytes: 0, alignment: T::layout().alignment }
    }

    proof fn lemma_layout() {
        T::lemma_layout();
    }

    /// Nothing is read. The elements begin at `address` rounded up to the
    /// alignment of `T`; when that is out of reach, the error names `address`.
    open spec fn decodes(address: Address, events: Seq<ReadEvent>, outcome: Result<Self, Error>) -> bool {
        &&& events.len() == 0
        &&& if align_up(address@, T::ALIGNMENT as int) > usize::MAX {
            outcome == Err::<Self, Error>(Error::AddressOverflowError(address))
        } else {
            outcome matches Ok(array) && array.target()@ == align_up(address@, T::ALIGNMENT as int)
        }
    }

    fn deserialize<M: MemoryReader>(reader: &mut M, address: Address) -> (r: Result<Self, Error>) {
        proof {
            T::lemma_layout();
            lemma_no_events(reader.history());
        }
        match address.checked_align_forward(T::ALIGNMENT) {
            Some(start) => Ok(Self { array_ptr: ArrayPtr::<T>::new(start) }),
            None => Err(Error::AddressOverflowError(address)),
        }
    }
}

} // verus!

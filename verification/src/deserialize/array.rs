use crate::deserialize::layout::FieldLayout;
use crate::memory::address::Address;
use crate::memory::reader::{vec_into_array, MemoryReader, ReadEvent};
use super::arrayptr::{range_step, ArrayPtr};
use super::deserializetrait::Deserialize;
use super::error::Error;
use vstd::prelude::*;

verus! {

/// The elements of a result that holds an array.
pub open spec fn array_outcome<T, const N: usize>(outcome: Result<[T; N], Error>) -> Result<Seq<T>, Error> {
    match outcome {
        Ok(values) => Ok(values@),
        Err(error) => Err(error),
    }
}

impl<T: Deserialize, const N: usize> Deserialize for [T; N] {
    const NUM_BYTES: usize = T::NUM_BYTES * N;

    const ALIGNMENT: usize = T::ALIGNMENT;

    open spec fn layout() -> FieldLayout {
        FieldLayout { num_bytes: (T::layout().num_bytes * N) as usize, alignment: T::layout().alignment }
    }

    proof fn lemma_layout() {
        T::lemma_layout();
    }

    /// The `N` elements are read in index order, each padded to the alignment
    /// of `T`, as the elements of a C array are.
    open spec fn decodes(address: Address, events: Seq<ReadEvent>, outcome: Result<Self, Error>) -> bool {
        range_step::<T>(address, N as int, events, array_outcome(outcome))
    }

    fn deserialize<M: MemoryReader>(reader: &mut M, address: Address) -> (r: Result<Self, Error>) {
        match ArrayPtr::<T>::new(address).deref(reader, N) {
            Ok(values) => Ok(vec_into_array(values)),
            Err(error) => Err(error),
        }
    }
}

} // verus!

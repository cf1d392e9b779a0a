use crate::deserialize::layout::FieldLayout;
use crate::memory::address::Address;
use crate::memory::reader::{events_since, lemma_events_chain, MemoryReader, ReadEvent};
use super::deserializetrait::Deserialize;
use super::error::Error;
use super::lazy::LazyDeserialize;
use vstd::prelude::*;

verus! {

/// A reference that is followed as soon as it has been decoded: what it holds
/// is the value that the reference led to.
pub struct Eager<T: LazyDeserialize> {
    pub value: T::Deserialized,
}

/// The outcome of following a reference, seen from the outcome of decoding it
/// eagerly.
pub open spec fn eager_outcome<T: LazyDeserialize>(outcome: Result<Eager<T>, Error>) -> Result<
    T::Deserialized,
    Error,
> {
    match outcome {
        Ok(eager) => Ok(eager.value),
        Err(error) => Err(error),
    }
}

impl<T: LazyDeserialize> Deserialize for Eager<T> {
    const NUM_BYTES: usize = T::NUM_BYTES;

    const ALIGNMENT: usize = T::ALIGNMENT;

    open spec fn layout() -> FieldLayout {
        FieldLayout { num_bytes: T::layout().num_bytes, alignment: T::layout().alignment }
    }

    proof fn lemma_layout() {
        T::lemma_layout();
    }

    /// The reference is decoded at `address` with the first `cut` requests;
    /// if that fails, its error is the outcome. Otherwise the reference is
    /// followed with the requests that remain.
    open spec fn decodes(address: Address, events: Seq<ReadEvent>, outcome: Result<Self, Error>) -> bool {
        exists|cut: int, lazy: Result<T, Error>|
            {
                &&& 0 <= cut <= events.len()
                &&& #[trigger] T::decodes(address, events.take(cut), lazy)
                &&& match lazy {
                    Ok(reference) => reference.derefs(events.skip(cut), eager_outcome(outcome)),
                    Err(error) => cut == events.len() && outcome == Err::<Self, Error>(error),
                }
            }
    }

    fn deserialize<M: MemoryReader>(reader: &mut M, address: Address) -> (r: Result<Self, Error>) {
        let ghost start = reader.history();
        let lazy = T::deserialize(reader, address);
        let ghost middle = reader.history();
        match lazy {
            Ok(lazy_value) => {
                let followed = lazy_value.deref(reader);
                let r = match followed {
                    Ok(value) => Ok(Self { value }),
                    Err(error) => Err(error),
                };
                proof {
                    lemma_events_chain(start, middle, reader.history());
                    let events = events_since(start, reader.history());
                    let cut = events_since(start, middle).len() as int;
                    assert(T::decodes(address, events.take(cut), Ok(lazy_value)));
                }
                r
            },
            Err(error) => {
                proof {
                    let events = events_since(start, reader.history());
                    assert(events.take(events.len() as int) =~= events);
                    assert(T::decodes(address, events.take(events.len() as int), Err(error)));
                }
                Err(error)
            },
        }
    }
}

} // verus!

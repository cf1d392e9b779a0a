use crate::memory::reader::{events_since, lemma_no_events, MemoryReader, ReadEvent};
use super::deserializetrait::Deserialize;
use super::error::Error;
use vstd::prelude::*;

verus! {

/// Trait for types whose decoding only captures where a further value lies:
/// reading that value is a second step, taken on demand.
pub trait LazyDeserialize: Deserialize {
    /// What the second step produces.
    type Deserialized;

    /// What the second step does: it makes exactly the requests in `events`,
    /// in that order, and from their answers arrives at `outcome`.
    spec fn derefs(&self, events: Seq<ReadEvent>, outcome: Result<Self::Deserialized, Error>) -> bool;

    /// Reads the value that this one refers to. Nothing is kept: each call
    /// reads memory again.
    fn deref<M: MemoryReader>(&self, reader: &mut M) -> (r: Result<Self::Deserialized, Error>)
        ensures
            old(reader).history().is_prefix_of(final(reader).history()),
            self.derefs(events_since(old(reader).history(), final(reader).history()), r),
    ;
}

/// The outcome of following an optional reference, seen from what following
/// the reference itself would give.
pub open spec fn some_outcome<D>(outcome: Result<Option<D>, Error>) -> Result<D, Error>
    recommends
        !(outcome matches Ok(None)),
{
    match outcome {
        Ok(Some(value)) => Ok(value),
        Ok(None) => arbitrary(),
        Err(e) => Err(e),
    }
}

impl<T: LazyDeserialize> LazyDeserialize for Option<T> where Option<T>: Deserialize {
    type Deserialized = Option<T::Deserialized>;

    /// Nothing is read for an absent reference, and the result is absent; a
    /// present one is followed.
    open spec fn derefs(&self, events: Seq<ReadEvent>, outcome: Result<Self::Deserialized, Error>) -> bool {
        match *self {
            None => events.len() == 0 && outcome == Ok::<Self::Deserialized, Error>(None),
            Some(value) => !(outcome matches Ok(None)) && value.derefs(events, some_outcome(outcome)),
        }
    }

    fn deref<M: MemoryReader>(&self, reader: &mut M) -> (r: Result<Self::Deserialized, Error>) {
        proof {
            lemma_no_events(reader.history());
        }
        match self {
            None => Ok(None),
            Some(value) => match value.deref(reader) {
                Ok(inner) => Ok(Some(inner)),
                Err(e) => Err(e),
            },
        }
    }
}

} // verus!

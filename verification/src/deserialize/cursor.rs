use crate::memory::address::{align_up, lemma_align_up_bounds, Address};
use crate::memory::reader::{events_since, lemma_no_events, MemoryReader, ReadEvent};
use super::deserializetrait::Deserialize;
use super::error::Error;
use vstd::prelude::*;
use vstd::string::StringExecFns;

verus! {

/// The description that is wrapped around a failure to decode a field.
pub open spec fn field_context_text(struct_name: Seq<char>, field_name: Seq<char>) -> Seq<char> {
    "while deserializing "@ + struct_name + "."@ + field_name
}

/// The description that is wrapped around a failure to decode the field
/// `field_name` of the structure `struct_name`.
pub fn field_context(struct_name: &str, field_name: &str) -> (context: String)
    ensures
        context@ == field_context_text(struct_name@, field_name@),
{
    String::from_str("while deserializing ").concat(struct_name).concat(".").concat(field_name)
}

/// Where a field of type `T` begins that follows fields ending at `end`.
pub open spec fn field_target<T: Deserialize>(end: int) -> int {
    align_up(end, T::ALIGNMENT as int)
}

/// Where a field of type `T` ends that follows fields ending at `end`.
pub open spec fn field_end<T: Deserialize>(end: int) -> int {
    field_target::<T>(end) + T::NUM_BYTES
}

/// What decoding one field of type `T` does, for a structure that began at
/// `origin` and whose fields so far end at `end`: the field is read at `end`
/// rounded up to the alignment of `T`. A failure is wrapped in `context`; an
/// address out of reach is reported against `origin`, with nothing read.
pub open spec fn field_step<T: Deserialize>(
    origin: Address,
    end: int,
    context: Seq<char>,
    events: Seq<ReadEvent>,
    outcome: Result<T, Error>,
) -> bool {
    let target = field_target::<T>(end);
    if target > usize::MAX {
        &&& events.len() == 0
        &&& outcome == Err::<T, Error>(Error::AddressOverflowError(origin))
    } else {
        match outcome {
            Ok(value) => T::decodes(Address(target as usize), events, Ok(value)),
            Err(Error::WithContext(cause, text)) => {
                &&& text@ == context
                &&& T::decodes(Address(target as usize), events, Err(*cause))
            },
            Err(_) => false,
        }
    }
}

/// Walks the fields of a structure in declaration order, keeping the address
/// that the fields read so far have reached.
pub struct FieldCursor {
    origin: Address,
    last_start: Address,
    last_num_bytes: usize,
}

impl FieldCursor {
    /// Where the structure begins.
    pub closed spec fn origin(&self) -> Address {
        self.origin
    }

    /// The first offset after the fields read so far. It may lie beyond the
    /// address space when the last field ends there.
    pub closed spec fn end(&self) -> int {
        self.last_start@ + self.last_num_bytes
    }

    /// A cursor at the start of a structure that lies at `address`.
    pub fn new(address: Address) -> (cursor: Self)
        ensures
            cursor.origin() == address,
            cursor.end() == address@,
    {
        FieldCursor { origin: address, last_start: address, last_num_bytes: 0 }
    }

    /// Decodes the next field, of type `T`, and moves past it. A failure is
    /// returned wrapped in a context that names the structure and the field,
    /// and leaves the cursor where it was.
    pub fn field<T: Deserialize, M: MemoryReader>(
        &mut self,
        reader: &mut M,
        struct_name: &str,
        field_name: &str,
    ) -> (r: Result<T, Error>)
        ensures
            old(reader).history().is_prefix_of(final(reader).history()),
            final(self).origin() == old(self).origin(),
            field_step::<T>(
                old(self).origin(),
                old(self).end(),
                field_context_text(struct_name@, field_name@),
                events_since(old(reader).history(), final(reader).history()),
                r,
            ),
            final(self).end() == if r is Ok {
                field_end::<T>(old(self).end())
            } else {
                old(self).end()
            },
    {
        proof {
            T::lemma_layout();
            lemma_no_events(reader.history());
            crate::deserialize::layout::lemma_power_of_two_positive(T::ALIGNMENT as int);
            lemma_align_up_bounds(self.end(), T::ALIGNMENT as int);
        }
        let target = match self.last_start.checked_add(self.last_num_bytes) {
            Some(end) => end.checked_align_forward(T::ALIGNMENT),
            None => None,
        };
        match target {
            None => Err(Error::AddressOverflowError(self.origin)),
            Some(address) => match T::deserialize(reader, address) {
                Ok(value) => {
                    self.last_start = address;
                    self.last_num_bytes = T::NUM_BYTES;
                    Ok(value)
                },
                Err(cause) => Err(cause.with_context(field_context(struct_name, field_name))),
            },
        }
    }
}

} // verus!

use crate::deserialize::cursor::{field_context_text, field_step, FieldCursor};
use crate::deserialize::deserializetrait::{lemma_small_powers_of_two, Deserialize};
use crate::deserialize::eager::Eager;
use crate::deserialize::error::Error;
use crate::deserialize::layout::{
    alignment_among, end_after, fields_aligned, struct_alignment, struct_num_bytes, FieldLayout,
};
use crate::deserialize::ptr::Ptr;
use crate::deserialize::segments::{lemma_prefix_trans, lemma_stretches_chain, stretches};
use crate::memory::address::Address;
use crate::memory::reader::{events_since, lemma_events_chain, lemma_no_events, MemoryReader, ReadEvent};
use super::class::{Class, MonoVTable};
use vstd::prelude::*;

verus! {

/// The header of an object.
pub struct ObjectInternals {
    pub vtable: Eager<Ptr<MonoVTable>>,
    pub synchronization: Option<Address>,
}

impl ObjectInternals {
    /// The layout of field `index`, in declaration order.
    pub open spec fn field_layout(index: int) -> FieldLayout {
        if index == 0 {
            FieldLayout::spec_of::<Eager<Ptr<MonoVTable>>>()
        } else {
            FieldLayout::spec_of::<Option<Address>>()
        }
    }

    /// The layouts of the fields, in declaration order.
    pub open spec fn fields() -> Seq<FieldLayout> {
        Seq::new(2, |index: int| Self::field_layout(index))
    }

    /// Where the fields before field `index` end, in a structure at `address`.
    pub open spec fn end_before(address: Address, index: int) -> int {
        end_after(address@, Self::fields(), index)
    }

    /// What the reading of field `index` did to arrive at that field of `value`.
    /// Kept out of sight of the prover until it is revealed.
    #[verifier::opaque]
    pub open spec fn field_read(address: Address, value: Self, index: int, events: Seq<ReadEvent>) -> bool {
        if index == 0 {
            field_step::<Eager<Ptr<MonoVTable>>>(
                address,
                Self::end_before(address, 0),
                field_context_text("ObjectInternals"@, "vtable"@),
                events,
                Ok(value.vtable),
            )
        } else {
            field_step::<Option<Address>>(
                address,
                Self::end_before(address, 1),
                field_context_text("ObjectInternals"@, "synchronization"@),
                events,
                Ok(value.synchronization),
            )
        }
    }

    /// What the reading of field `index` did to fail with `error`. Kept out of
    /// sight of the prover until it is revealed.
    #[verifier::opaque]
    pub open spec fn field_fails(address: Address, index: int, events: Seq<ReadEvent>, error: Error) -> bool {
        if index == 0 {
            field_step::<Eager<Ptr<MonoVTable>>>(
                address,
                Self::end_before(address, 0),
                field_context_text("ObjectInternals"@, "vtable"@),
                events,
                Err(error),
            )
        } else {
            field_step::<Option<Address>>(
                address,
                Self::end_before(address, 1),
                field_context_text("ObjectInternals"@, "synchronization"@),
                events,
                Err(error),
            )
        }
    }

    /// What the reading of each field did, for the fields of `value`.
    pub open spec fn fields_read(address: Address, value: Self) -> spec_fn(int, Seq<ReadEvent>) -> bool {
        |index: int, events: Seq<ReadEvent>| Self::field_read(address, value, index, events)
    }

    /// The fields of `value` were read in declaration order, each at the end of
    /// the one before it rounded up to its own alignment, with exactly the
    /// requests in `events`.
    pub open spec fn reads_fields(address: Address, events: Seq<ReadEvent>, value: Self) -> bool {
        exists|cuts: Seq<int>| #[trigger]
            stretches(2, cuts, events, Self::fields_read(address, value)) && cuts.last() == events.len()
    }

    /// The reading ended with a field that could not be read: `error` is that
    /// field's error, wrapped in a context that names the field.
    pub open spec fn fails_at_field(address: Address, events: Seq<ReadEvent>, error: Error) -> bool {
        exists|index: int, cut: int|
            0 <= index < 2 && 0 <= cut <= events.len() && #[trigger] Self::field_fails(
                address,
                index,
                events.skip(cut),
                error,
            )
    }

    /// When a history grew through one state for each field, and what was added
    /// from each state to the next is the reading of that field of `value`, the
    /// whole of what was added is the reading of `value`.
    pub proof fn lemma_reads_fields(address: Address, value: Self, histories: Seq<Seq<ReadEvent>>)
        requires
            histories.len() == 3,
            forall|i: int|
                0 <= i < 2 ==> (#[trigger] histories[i]).is_prefix_of(histories[i + 1]) && Self::field_read(
                    address,
                    value,
                    i,
                    events_since(histories[i], histories[i + 1]),
                ),
        ensures
            Self::reads_fields(address, events_since(histories[0], histories[2]), value),
    {
        let step = Self::fields_read(address, value);
        assert forall|i: int| 0 <= i < 2 implies (#[trigger] histories[i]).is_prefix_of(histories[i + 1]) && step(
            i,
            events_since(histories[i], histories[i + 1]),
        ) by {
            assert(Self::field_read(address, value, i, events_since(histories[i], histories[i + 1])));
        }
        let cuts = lemma_stretches_chain(2, histories, step);
        assert(stretches(2, cuts, events_since(histories[0], histories[2]), Self::fields_read(address, value)));
    }

    /// The size and alignment of the structure are those of its fields laid
    /// out in declaration order.
    pub proof fn lemma_fields()
        ensures
            fields_aligned(Self::fields()),
            Self::fields().len() == 2,
    {
        <Eager<Ptr<MonoVTable>>>::lemma_layout();
        <Option<Address>>::lemma_layout();
    }
}

impl ObjectInternals {
    /// The size and the alignment of the structure are those of its fields laid
    /// out in declaration order.
    pub proof fn lemma_size()
        ensures
            <Self as Deserialize>::NUM_BYTES == struct_num_bytes(Self::fields()),
            <Self as Deserialize>::ALIGNMENT == struct_alignment(Self::fields()),
    {
        Self::lemma_fields();
        lemma_small_powers_of_two();
        <Eager<Ptr<MonoVTable>>>::lemma_layout();
        <Option<Address>>::lemma_layout();
        assert(end_after(0, Self::fields(), 0) == 0);
        assert(alignment_among(Self::fields(), 0) == 1);
        assert(Self::fields()[0] == FieldLayout { num_bytes: 8, alignment: 8 });
        assert(end_after(0, Self::fields(), 1) == 8);
        assert(Self::fields()[1] == FieldLayout { num_bytes: 8, alignment: 8 });
        assert(end_after(0, Self::fields(), 2) == 16);
        assert(alignment_among(Self::fields(), 1) == 8);
        assert(alignment_among(Self::fields(), 2) == 8);
    }
}

impl Deserialize for ObjectInternals {
    const NUM_BYTES: usize = 16;

    const ALIGNMENT: usize = 8;

    open spec fn layout() -> FieldLayout {
        FieldLayout { num_bytes: 16, alignment: 8 }
    }

    proof fn lemma_layout() {
        lemma_small_powers_of_two();
    }

    /// The fields are read in declaration order, each at the end of the one
    /// before it rounded up to its own alignment. The first field that cannot
    /// be read ends the reading; its error is the outcome, wrapped in a
    /// context that names the field.
    open spec fn decodes(address: Address, events: Seq<ReadEvent>, outcome: Result<Self, Error>) -> bool {
        match outcome {
            Ok(value) => Self::reads_fields(address, events, value),
            Err(error) => Self::fails_at_field(address, events, error),
        }
    }

    fn deserialize<M: MemoryReader>(reader: &mut M, address: Address) -> (r: Result<Self, Error>) {
        let ghost h0 = reader.history();
        let mut cursor = FieldCursor::new(address);
        proof {
            Self::lemma_fields();
            lemma_no_events(h0);
            assert(Self::end_before(address, 0) == address@);
        }
        let field0 = match cursor.field::<Eager<Ptr<MonoVTable>>, M>(reader, "ObjectInternals", "vtable") {
            Ok(value) => value,
            Err(error) => {
                proof {
                    lemma_events_chain(h0, h0, reader.history());
                    let cut = events_since(h0, h0).len() as int;
                    assert(Self::field_fails(address, 0, events_since(h0, reader.history()).skip(cut), error)) by {
                        reveal(ObjectInternals::field_fails);
                    }
                    assert(Self::fails_at_field(address, events_since(h0, reader.history()), error));
                }
                return Err(error);
            },
        };
        let ghost h1 = reader.history();
        proof {
            lemma_prefix_trans(h0, h0, h1);
            assert(cursor.end() == Self::end_before(address, 1));
        }
        let field1 = match cursor.field::<Option<Address>, M>(reader, "ObjectInternals", "synchronization") {
            Ok(value) => value,
            Err(error) => {
                proof {
                    lemma_events_chain(h0, h1, reader.history());
                    let cut = events_since(h0, h1).len() as int;
                    assert(Self::field_fails(address, 1, events_since(h0, reader.history()).skip(cut), error)) by {
                        reveal(ObjectInternals::field_fails);
                    }
                    assert(Self::fails_at_field(address, events_since(h0, reader.history()), error));
                }
                return Err(error);
            },
        };
        let ghost h2 = reader.history();
        proof {
            lemma_prefix_trans(h0, h1, h2);
            assert(cursor.end() == Self::end_before(address, 2));
        }
        let value = Self { vtable: field0, synchronization: field1 };
        proof {
            let histories = Seq::new(3, |i: int|
                if i == 0 {
                    h0
                } else if i == 1 {
                    h1
                } else {
                    h2
                });
            assert forall|i: int| 0 <= i < 2 implies (#[trigger] histories[i]).is_prefix_of(histories[i + 1])
                && Self::field_read(address, value, i, events_since(histories[i], histories[i + 1])) by {
                if i == 0 {
                    assert(Self::field_read(address, value, 0, events_since(h0, h1))) by {
                        reveal(ObjectInternals::field_read);
                    }
                } else if i == 1 {
                    assert(Self::field_read(address, value, 1, events_since(h1, h2))) by {
                        reveal(ObjectInternals::field_read);
                    }
                }
            }
            Self::lemma_reads_fields(address, value, histories);
        }
        Ok(value)
    }
}

/// An object of a class.
pub struct Object<'a> {
    pub internals: ObjectInternals,
    pub class: &'a Class,
}

} // verus!

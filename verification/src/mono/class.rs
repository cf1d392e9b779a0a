use crate::deserialize::arrayptr::{element_read, element_step, elements_read, range_step, ArrayPtr};
use crate::deserialize::cursor::{field_context_text, field_step, FieldCursor};
use crate::deserialize::deserializetrait::{lemma_small_powers_of_two, Deserialize};
use crate::deserialize::eager::Eager;
use crate::deserialize::error::Error;
use crate::deserialize::layout::{
    alignment_among, end_after, fields_aligned, struct_alignment, struct_num_bytes, FieldLayout,
};
use crate::deserialize::linkedlist::Linked;
use crate::deserialize::ptr::Ptr;
use crate::deserialize::segments::{lemma_fails_later, lemma_prefix_trans, lemma_stretches_chain, stretches};
use crate::deserialize::segments::{
    lemma_segments_extend, lemma_segments_push, lemma_stretches_empty, lemma_stretches_push,
};
use crate::deserialize::zerolengtharray::ZeroLengthArray;
use crate::memory::address::Address;
use crate::memory::reader::{events_since, lemma_events_chain, lemma_no_events, MemoryReader, ReadEvent};
use crate::text::{decimal_string, decimal_text};
use super::images::Image;
use super::object::{Object, ObjectInternals};
use super::utils::has_flag;
use vstd::prelude::*;
use vstd::string::StringExecFns;

verus! {

/// What is added to the number of a type definition to make its token.
pub const MONO_TOKEN_TYPE_DEF: usize = 0x0200_0000;

/// The index of the root domain among the domains of a class.
pub const MONO_ROOT_DOMAIN: usize = 0;

/// The description of a type in the other process.
pub struct MonoType {
    pub data: Option<Address>,
    pub attrs: i16,
    pub typ: u8,
    pub _bitfields: u8,
}

impl MonoType {
    /// The layout of field `index`, in declaration order.
    pub open spec fn field_layout(index: int) -> FieldLayout {
        if index == 0 {
            FieldLayout::spec_of::<Option<Address>>()
        } else if index == 1 {
            FieldLayout::spec_of::<i16>()
        } else if index == 2 {
            FieldLayout::spec_of::<u8>()
        } else {
            FieldLayout::spec_of::<u8>()
        }
    }

    /// The layouts of the fields, in declaration order.
    pub open spec fn fields() -> Seq<FieldLayout> {
        Seq::new(4, |index: int| Self::field_layout(index))
    }

    /// Where the fields before field `index` end, in a structure at `address`.
    pub open spec fn end_before(address: Address, index: int) -> int {
        end_after(address@, Self::fields(), index)
    }

    /// What the reading of field `index` did to arrive at that field of `value`.
    /// Kept out of sight of the prover until it is revealed.
    #[verifier::opaque]
    pub open spec fn field_read(address: Address, value: Self, index: int, events: Seq<ReadEvent>) -> bool {
        if index == 0 {
            field_step::<Option<Address>>(
                address,
                Self::end_before(address, 0),
                field_context_text("MonoType"@, "data"@),
                events,
                Ok(value.data),
            )
        } else if index == 1 {
            field_step::<i16>(
                address,
                Self::end_before(address, 1),
                field_context_text("MonoType"@, "attrs"@),
                events,
                Ok(value.attrs),
            )
        } else if index == 2 {
            field_step::<u8>(
                address,
                Self::end_before(address, 2),
                field_context_text("MonoType"@, "typ"@),
                events,
                Ok(value.typ),
            )
        } else {
            field_step::<u8>(
                address,
                Self::end_before(address, 3),
                field_context_text("MonoType"@, "_bitfields"@),
                events,
                Ok(value._bitfields),
            )
        }
    }

    /// What the reading of field `index` did to fail with `error`. Kept out of
    /// sight of the prover until it is revealed.
    #[verifier::opaque]
    pub open spec fn field_fails(address: Address, index: int, events: Seq<ReadEvent>, error: Error) -> bool {
        if index == 0 {
            field_step::<Option<Address>>(
                address,
                Self::end_before(address, 0),
                field_context_text("MonoType"@, "data"@),
                events,
                Err(error),
            )
        } else if index == 1 {
            field_step::<i16>(
                address,
                Self::end_before(address, 1),
                field_context_text("MonoType"@, "attrs"@),
                events,
                Err(error),
            )
        } else if index == 2 {
            field_step::<u8>(
                address,
                Self::end_before(address, 2),
                field_context_text("MonoType"@, "typ"@),
                events,
                Err(error),
            )
        } else {
            field_step::<u8>(
                address,
                Self::end_before(address, 3),
                field_context_text("MonoType"@, "_bitfields"@),
                events,
                Err(error),
            )
        }
    }

    /// What the reading of each field did, for the fields of `value`.
    pub open spec fn fields_read(address: Address, value: Self) -> spec_fn(int, Seq<ReadEvent>) -> bool {
        |index: int, events: Seq<ReadEvent>| Self::field_read(address, value, index, events)
    }

    /// The fields of `value` were read in declaration order, each at the end of
    /// the one before it rounded up to its own alignment, with exactly the
    /// requests in `events`.
    pub open spec fn reads_fields(address: Address, events: Seq<ReadEvent>, value: Self) -> bool {
        exists|cuts: Seq<int>| #[trigger]
            stretches(4, cuts, events, Self::fields_read(address, value)) && cuts.last() == events.len()
    }

    /// The reading ended with a field that could not be read: `error` is that
    /// field's error, wrapped in a context that names the field.
    pub open spec fn fails_at_field(address: Address, events: Seq<ReadEvent>, error: Error) -> bool {
        exists|index: int, cut: int|
            0 <= index < 4 && 0 <= cut <= events.len() && #[trigger] Self::field_fails(
                address,
                index,
                events.skip(cut),
                error,
            )
    }

    /// When a history grew through one state for each field, and what was added
    /// from each state to the next is the reading of that field of `value`, the
    /// whole of what was added is the reading of `value`.
    pub proof fn lemma_reads_fields(address: Address, value: Self, histories: Seq<Seq<ReadEvent>>)
        requires
            histories.len() == 5,
            forall|i: int|
                0 <= i < 4 ==> (#[trigger] histories[i]).is_prefix_of(histories[i + 1]) && Self::field_read(
                    address,
                    value,
                    i,
                    events_since(histories[i], histories[i + 1]),
                ),
        ensures
            Self::reads_fields(address, events_since(histories[0], histories[4]), value),
    {
        let step = Self::fields_read(address, value);
        assert forall|i: int| 0 <= i < 4 implies (#[trigger] histories[i]).is_prefix_of(histories[i + 1]) && step(
            i,
            events_since(histories[i], histories[i + 1]),
        ) by {
            assert(Self::field_read(address, value, i, events_since(histories[i], histories[i + 1])));
        }
        let cuts = lemma_stretches_chain(4, histories, step);
        assert(stretches(4, cuts, events_since(histories[0], histories[4]), Self::fields_read(address, value)));
    }

    /// The size and alignment of the structure are those of its fields laid
    /// out in declaration order.
    pub proof fn lemma_fields()
        ensures
            fields_aligned(Self::fields()),
            Self::fields().len() == 4,
    {
        <Option<Address>>::lemma_layout();
        <i16>::lemma_layout();
        <u8>::lemma_layout();
        <u8>::lemma_layout();
    }
}

impl MonoType {
    /// The size and the alignment of the structure are those of its fields laid
    /// out in declaration order.
    pub proof fn lemma_size()
        ensures
            <Self as Deserialize>::NUM_BYTES == struct_num_bytes(Self::fields()),
            <Self as Deserialize>::ALIGNMENT == struct_alignment(Self::fields()),
    {
        Self::lemma_fields();
        lemma_small_powers_of_two();
        <Option<Address>>::lemma_layout();
        <i16>::lemma_layout();
        <u8>::lemma_layout();
        assert(end_after(0, Self::fields(), 0) == 0);
        assert(alignment_among(Self::fields(), 0) == 1);
        assert(Self::fields()[0] == FieldLayout { num_bytes: 8, alignment: 8 });
        assert(end_after(0, Self::fields(), 1) == 8);
        assert(Self::fields()[1] == FieldLayout { num_bytes: 2, alignment: 2 });
        assert(end_after(0, Self::fields(), 2) == 10);
        assert(Self::fields()[2] == FieldLayout { num_bytes: 1, alignment: 1 });
        assert(end_after(0, Self::fields(), 3) == 11);
        assert(Self::fields()[3] == FieldLayout { num_bytes: 1, alignment: 1 });
        assert(end_after(0, Self::fields(), 4) == 12);
        assert(alignment_among(Self::fields(), 1) == 8);
        assert(alignment_among(Self::fields(), 2) == 8);
        assert(alignment_among(Self::fields(), 3) == 8);
        assert(alignment_among(Self::fields(), 4) == 8);
    }
}

impl Deserialize for MonoType {
    const NUM_BYTES: usize = 12;

    const ALIGNMENT: usize = 8;

    open spec fn layout() -> FieldLayout {
        FieldLayout { num_bytes: 12, alignment: 8 }
    }

    proof fn lemma_layout() {
        lemma_small_powers_of_two();
    }

    /// The fields are read in declaration order, each at the end of the one
    /// before it rounded up to its own alignment. The first field that cannot
    /// be read ends the reading; its error is the outcome, wrapped in a
    /// context that names the field.
    open spec fn decodes(address: Address, events: Seq<ReadEvent>, outcome: Result<Self, Error>) -> bool {
        match outcome {
            Ok(value) => Self::reads_fields(address, events, value),
            Err(error) => Self::fails_at_field(address, events, error),
        }
    }

    fn deserialize<M: MemoryReader>(reader: &mut M, address: Address) -> (r: Result<Self, Error>) {
        let ghost h0 = reader.history();
        let mut cursor = FieldCursor::new(address);
        proof {
            Self::lemma_fields();
            lemma_no_events(h0);
            assert(Self::end_before(address, 0) == address@);
        }
        let field0 = match cursor.field::<Option<Address>, M>(reader, "MonoType", "data") {
            Ok(value) => value,
            Err(error) => {
                proof {
                    lemma_events_chain(h0, h0, reader.history());
                    let cut = events_since(h0, h0).len() as int;
                    assert(Self::field_fails(address, 0, events_since(h0, reader.history()).skip(cut), error)) by {
                        reveal(MonoType::field_fails);
                    }
                    assert(Self::fails_at_field(address, events_since(h0, reader.history()), error));
                }
                return Err(error);
            },
        };
        let ghost h1 = reader.history();
        proof {
            lemma_prefix_trans(h0, h0, h1);
            assert(cursor.end() == Self::end_before(address, 1));
        }
        let field1 = match cursor.field::<i16, M>(reader, "MonoType", "attrs") {
            Ok(value) => value,
            Err(error) => {
                proof {
                    lemma_events_chain(h0, h1, reader.history());
                    let cut = events_since(h0, h1).len() as int;
                    assert(Self::field_fails(address, 1, events_since(h0, reader.history()).skip(cut), error)) by {
                        reveal(MonoType::field_fails);
                    }
                    assert(Self::fails_at_field(address, events_since(h0, reader.history()), error));
                }
                return Err(error);
            },
        };
        let ghost h2 = reader.history();
        proof {
            lemma_prefix_trans(h0, h1, h2);
            assert(cursor.end() == Self::end_before(address, 2));
        }
        let field2 = match cursor.field::<u8, M>(reader, "MonoType", "typ") {
            Ok(value) => value,
            Err(error) => {
                proof {
                    lemma_events_chain(h0, h2, reader.history());
                    let cut = events_since(h0, h2).len() as int;
                    assert(Self::field_fails(address, 2, events_since(h0, reader.history()).skip(cut), error)) by {
                        reveal(MonoType::field_fails);
                    }
                    assert(Self::fails_at_field(address, events_since(h0, reader.history()), error));
                }
                return Err(error);
            },
        };
        let ghost h3 = reader.history();
        proof {
            lemma_prefix_trans(h0, h2, h3);
            assert(cursor.end() == Self::end_before(address, 3));
        }
        let field3 = match cursor.field::<u8, M>(reader, "MonoType", "_bitfields") {
            Ok(value) => value,
            Err(error) => {
                proof {
                    lemma_events_chain(h0, h3, reader.history());
                    let cut = events_since(h0, h3).len() as int;
                    assert(Self::field_fails(address, 3, events_since(h0, reader.history()).skip(cut), error)) by {
                        reveal(MonoType::field_fails);
                    }
                    assert(Self::fails_at_field(address, events_since(h0, reader.history()), error));
                }
                return Err(error);
            },
        };
        let ghost h4 = reader.history();
        proof {
            lemma_prefix_trans(h0, h3, h4);
            assert(cursor.end() == Self::end_before(address, 4));
        }
        let value = Self { data: field0, attrs: field1, typ: field2, _bitfields: field3 };
        proof {
            let histories = Seq::new(5, |i: int|
                if i == 0 {
                    h0
                } else if i == 1 {
                    h1
                } else if i == 2 {
                    h2
                } else if i == 3 {
                    h3
                } else {
                    h4
                });
            assert forall|i: int| 0 <= i < 4 implies (#[trigger] histories[i]).is_prefix_of(histories[i + 1])
                && Self::field_read(address, value, i, events_since(histories[i], histories[i + 1])) by {
                if i == 0 {
                    assert(Self::field_read(address, value, 0, events_since(h0, h1))) by {
                        reveal(MonoType::field_read);
                    }
                } else if i == 1 {
                    assert(Self::field_read(address, value, 1, events_since(h1, h2))) by {
                        reveal(MonoType::field_read);
                    }
                } else if i == 2 {
                    assert(Self::field_read(address, value, 2, events_since(h2, h3))) by {
                        reveal(MonoType::field_read);
                    }
                } else if i == 3 {
                    assert(Self::field_read(address, value, 3, events_since(h3, h4))) by {
                        reveal(MonoType::field_read);
                    }
                }
            }
            Self::lemma_reads_fields(address, value, histories);
        }
        Ok(value)
    }
}

/// One field of a class.
pub struct MonoClassField {
    pub typ: Ptr<MonoType>,
    pub name: String,
    pub parent: Address,
    pub offset: i32,
}

impl MonoClassField {
    /// The layout of field `index`, in declaration order.
    pub open spec fn field_layout(index: int) -> FieldLayout {
        if index == 0 {
            FieldLayout::spec_of::<Ptr<MonoType>>()
        } else if index == 1 {
            FieldLayout::spec_of::<String>()
        } else if index == 2 {
            FieldLayout::spec_of::<Address>()
        } else {
            FieldLayout::spec_of::<i32>()
        }
    }

    /// The layouts of the fields, in declaration order.
    pub open spec fn fields() -> Seq<FieldLayout> {
        Seq::new(4, |index: int| Self::field_layout(index))
    }

    /// Where the fields before field `index` end, in a structure at `address`.
    pub open spec fn end_before(address: Address, index: int) -> int {
        end_after(address@, Self::fields(), index)
    }

    /// What the reading of field `index` did to arrive at that field of `value`.
    /// Kept out of sight of the prover until it is revealed.
    #[verifier::opaque]
    pub open spec fn field_read(address: Address, value: Self, index: int, events: Seq<ReadEvent>) -> bool {
        if index == 0 {
            field_step::<Ptr<MonoType>>(
                address,
                Self::end_before(address, 0),
                field_context_text("MonoClassField"@, "typ"@),
                events,
                Ok(value.typ),
            )
        } else if index == 1 {
            field_step::<String>(
                address,
                Self::end_before(address, 1),
                field_context_text("MonoClassField"@, "name"@),
                events,
                Ok(value.name),
            )
        } else if index == 2 {
            field_step::<Address>(
                address,
                Self::end_before(address, 2),
                field_context_text("MonoClassField"@, "parent"@),
                events,
                Ok(value.parent),
            )
        } else {
            field_step::<i32>(
                address,
                Self::end_before(address, 3),
                field_context_text("MonoClassField"@, "offset"@),
                events,
                Ok(value.offset),
            )
        }
    }

    /// What the reading of field `index` did to fail with `error`. Kept out of
    /// sight of the prover until it is revealed.
    #[verifier::opaque]
    pub open spec fn field_fails(address: Address, index: int, events: Seq<ReadEvent>, error: Error) -> bool {
        if index == 0 {
            field_step::<Ptr<MonoType>>(
                address,
                Self::end_before(address, 0),
                field_context_text("MonoClassField"@, "typ"@),
                events,
                Err(error),
            )
        } else if index == 1 {
            field_step::<String>(
                address,
                Self::end_before(address, 1),
                field_context_text("MonoClassField"@, "name"@),
                events,
                Err(error),
            )
        } else if index == 2 {
            field_step::<Address>(
                address,
                Self::end_before(address, 2),
                field_context_text("MonoClassField"@, "parent"@),
                events,
                Err(error),
            )
        } else {
            field_step::<i32>(
                address,
                Self::end_before(address, 3),
                field_context_text("MonoClassField"@, "offset"@),
                events,
                Err(error),
            )
        }
    }

    /// What the reading of each field did, for the fields of `value`.
    pub open spec fn fields_read(address: Address, value: Self) -> spec_fn(int, Seq<ReadEvent>) -> bool {
        |index: int, events: Seq<ReadEvent>| Self::field_read(address, value, index, events)
    }

    /// The fields of `value` were read in declaration order, each at the end of
    /// the one before it rounded up to its own alignment, with exactly the
    /// requests in `events`.
    pub open spec fn reads_fields(address: Address, events: Seq<ReadEvent>, value: Self) -> bool {
        exists|cuts: Seq<int>| #[trigger]
            stretches(4, cuts, events, Self::fields_read(address, value)) && cuts.last() == events.len()
    }

    /// The reading ended with a field that could not be read: `error` is that
    /// field's error, wrapped in a context that names the field.
    pub open spec fn fails_at_field(address: Address, events: Seq<ReadEvent>, error: Error) -> bool {
        exists|index: int, cut: int|
            0 <= index < 4 && 0 <= cut <= events.len() && #[trigger] Self::field_fails(
                address,
                index,
                events.skip(cut),
                error,
            )
    }

    /// When a history grew through one state for each field, and what was added
    /// from each state to the next is the reading of that field of `value`, the
    /// whole of what was added is the reading of `value`.
    pub proof fn lemma_reads_fields(address: Address, value: Self, histories: Seq<Seq<ReadEvent>>)
        requires
            histories.len() == 5,
            forall|i: int|
                0 <= i < 4 ==> (#[trigger] histories[i]).is_prefix_of(histories[i + 1]) && Self::field_read(
                    address,
                    value,
                    i,
                    events_since(histories[i], histories[i + 1]),
                ),
        ensures
            Self::reads_fields(address, events_since(histories[0], histories[4]), value),
    {
        let step = Self::fields_read(address, value);
        assert forall|i: int| 0 <= i < 4 implies (#[trigger] histories[i]).is_prefix_of(histories[i + 1]) && step(
            i,
            events_since(histories[i], histories[i + 1]),
        ) by {
            assert(Self::field_read(address, value, i, events_since(histories[i], histories[i + 1])));
        }
        let cuts = lemma_stretches_chain(4, histories, step);
        assert(stretches(4, cuts, events_since(histories[0], histories[4]), Self::fields_read(address, value)));
    }

    /// The size and alignment of the structure are those of its fields laid
    /// out in declaration order.
    pub proof fn lemma_fields()
        ensures
            fields_aligned(Self::fields()),
            Self::fields().len() == 4,
    {
        <Ptr<MonoType>>::lemma_layout();
        <String>::lemma_layout();
        <Address>::lemma_layout();
        <i32>::lemma_layout();
    }
}

impl MonoClassField {
    /// The size and the alignment of the structure are those of its fields laid
    /// out in declaration order.
    pub proof fn lemma_size()
        ensures
            <Self as Deserialize>::NUM_BYTES == struct_num_bytes(Self::fields()),
            <Self as Deserialize>::ALIGNMENT == struct_alignment(Self::fields()),
    {
        Self::lemma_fields();
        lemma_small_powers_of_two();
        <Address>::lemma_layout();
        <Ptr<MonoType>>::lemma_layout();
        <String>::lemma_layout();
        <i32>::lemma_layout();
        assert(end_after(0, Self::fields(), 0) == 0);
        assert(alignment_among(Self::fields(), 0) == 1);
        assert(Self::fields()[0] == FieldLayout { num_bytes: 8, alignment: 8 });
        assert(end_after(0, Self::fields(), 1) == 8);
        assert(Self::fields()[1] == FieldLayout { num_bytes: 8, alignment: 8 });
        assert(end_after(0, Self::fields(), 2) == 16);
        assert(Self::fields()[2] == FieldLayout { num_bytes: 8, alignment: 8 });
        assert(end_after(0, Self::fields(), 3) == 24);
        assert(Self::fields()[3] == FieldLayout { num_bytes: 4, alignment: 4 });
        assert(end_after(0, Self::fields(), 4) == 28);
        assert(alignment_among(Self::fields(), 1) == 8);
        assert(alignment_among(Self::fields(), 2) == 8);
        assert(alignment_among(Self::fields(), 3) == 8);
        assert(alignment_among(Self::fields(), 4) == 8);
    }
}

impl Deserialize for MonoClassField {
    const NUM_BYTES: usize = 28;

    const ALIGNMENT: usize = 8;

    open spec fn layout() -> FieldLayout {
        FieldLayout { num_bytes: 28, alignment: 8 }
    }

    proof fn lemma_layout() {
        lemma_small_powers_of_two();
    }

    /// The fields are read in declaration order, each at the end of the one
    /// before it rounded up to its own alignment. The first field that cannot
    /// be read ends the reading; its error is the outcome, wrapped in a
    /// context that names the field.
    open spec fn decodes(address: Address, events: Seq<ReadEvent>, outcome: Result<Self, Error>) -> bool {
        match outcome {
            Ok(value) => Self::reads_fields(address, events, value),
            Err(error) => Self::fails_at_field(address, events, error),
        }
    }

    fn deserialize<M: MemoryReader>(reader: &mut M, address: Address) -> (r: Result<Self, Error>) {
        let ghost h0 = reader.history();
        let mut cursor = FieldCursor::new(address);
        proof {
            Self::lemma_fields();
            lemma_no_events(h0);
            assert(Self::end_before(address, 0) == address@);
        }
        let field0 = match cursor.field::<Ptr<MonoType>, M>(reader, "MonoClassField", "typ") {
            Ok(value) => value,
            Err(error) => {
                proof {
                    lemma_events_chain(h0, h0, reader.history());
                    let cut = events_since(h0, h0).len() as int;
                    assert(Self::field_fails(address, 0, events_since(h0, reader.history()).skip(cut), error)) by {
                        reveal(MonoClassField::field_fails);
                    }
                    assert(Self::fails_at_field(address, events_since(h0, reader.history()), error));
                }
                return Err(error);
            },
        };
        let ghost h1 = reader.history();
        proof {
            lemma_prefix_trans(h0, h0, h1);
            assert(cursor.end() == Self::end_before(address, 1));
        }
        let field1 = match cursor.field::<String, M>(reader, "MonoClassField", "name") {
            Ok(value) => value,
            Err(error) => {
                proof {
                    lemma_events_chain(h0, h1, reader.history());
                    let cut = events_since(h0, h1).len() as int;
                    assert(Self::field_fails(address, 1, events_since(h0, reader.history()).skip(cut), error)) by {
                        reveal(MonoClassField::field_fails);
                    }
                    assert(Self::fails_at_field(address, events_since(h0, reader.history()), error));
                }
                return Err(error);
            },
        };
        let ghost h2 = reader.history();
        proof {
            lemma_prefix_trans(h0, h1, h2);
            assert(cursor.end() == Self::end_before(address, 2));
        }
        let field2 = match cursor.field::<Address, M>(reader, "MonoClassField", "parent") {
            Ok(value) => value,
            Err(error) => {
                proof {
                    lemma_events_chain(h0, h2, reader.history());
                    let cut = events_since(h0, h2).len() as int;
                    assert(Self::field_fails(address, 2, events_since(h0, reader.history()).skip(cut), error)) by {
                        reveal(MonoClassField::field_fails);
                    }
                    assert(Self::fails_at_field(address, events_since(h0, reader.history()), error));
                }
                return Err(error);
            },
        };
        let ghost h3 = reader.history();
        proof {
            lemma_prefix_trans(h0, h2, h3);
            assert(cursor.end() == Self::end_before(address, 3));
        }
        let field3 = match cursor.field::<i32, M>(reader, "MonoClassField", "offset") {
            Ok(value) => value,
            Err(error) => {
                proof {
                    lemma_events_chain(h0, h3, reader.history());
                    let cut = events_since(h0, h3).len() as int;
                    assert(Self::field_fails(address, 3, events_since(h0, reader.history()).skip(cut), error)) by {
                        reveal(MonoClassField::field_fails);
                    }
                    assert(Self::fails_at_field(address, events_since(h0, reader.history()), error));
                }
                return Err(error);
            },
        };
        let ghost h4 = reader.history();
        proof {
            lemma_prefix_trans(h0, h3, h4);
            assert(cursor.end() == Self::end_before(address, 4));
        }
        let value = Self { typ: field0, name: field1, parent: field2, offset: field3 };
        proof {
            let histories = Seq::new(5, |i: int|
                if i == 0 {
                    h0
                } else if i == 1 {
                    h1
                } else if i == 2 {
                    h2
                } else if i == 3 {
                    h3
                } else {
                    h4
                });
            assert forall|i: int| 0 <= i < 4 implies (#[trigger] histories[i]).is_prefix_of(histories[i + 1])
                && Self::field_read(address, value, i, events_since(histories[i], histories[i + 1])) by {
                if i == 0 {
                    assert(Self::field_read(address, value, 0, events_since(h0, h1))) by {
                        reveal(MonoClassField::field_read);
                    }
                } else if i == 1 {
                    assert(Self::field_read(address, value, 1, events_since(h1, h2))) by {
                        reveal(MonoClassField::field_read);
                    }
                } else if i == 2 {
                    assert(Self::field_read(address, value, 2, events_since(h2, h3))) by {
                        reveal(MonoClassField::field_read);
                    }
                } else if i == 3 {
                    assert(Self::field_read(address, value, 3, events_since(h3, h4))) by {
                        reveal(MonoClassField::field_read);
                    }
                }
            }
            Self::lemma_reads_fields(address, value, histories);
        }
        Ok(value)
    }
}

/// The table of a class for one domain. The entries of the table follow it in
/// memory, and after them the static fields' data.
pub struct MonoVTable {
    pub class: Address,
    pub gc_descr: Option<Address>,
    pub domain: Option<Address>,
    pub typ: Option<Address>,
    pub interface_bitmap: Option<Address>,
    pub max_interface_id: u32,
    pub rank: u8,
    pub initialized: u8,
    pub bitfield: u32,
    pub imt_collisions_bitmap: u32,
    pub runtime_generic_context: Option<Address>,
    pub vtable: ZeroLengthArray<Address>,
}

impl MonoVTable {
    /// The layout of field `index`, in declaration order.
    pub open spec fn field_layout(index: int) -> FieldLayout {
        if index == 0 {
            FieldLayout::spec_of::<Address>()
        } else if index == 1 {
            FieldLayout::spec_of::<Option<Address>>()
        } else if index == 2 {
            FieldLayout::spec_of::<Option<Address>>()
        } else if index == 3 {
            FieldLayout::spec_of::<Option<Address>>()
        } else if index == 4 {
            FieldLayout::spec_of::<Option<Address>>()
        } else if index == 5 {
            FieldLayout::spec_of::<u32>()
        } else if index == 6 {
            FieldLayout::spec_of::<u8>()
        } else if index == 7 {
            FieldLayout::spec_of::<u8>()
        } else if index == 8 {
            FieldLayout::spec_of::<u32>()
        } else if index == 9 {
            FieldLayout::spec_of::<u32>()
        } else if index == 10 {
            FieldLayout::spec_of::<Option<Address>>()
        } else {
            FieldLayout::spec_of::<ZeroLengthArray<Address>>()
        }
    }

    /// The layouts of the fields, in declaration order.
    pub open spec fn fields() -> Seq<FieldLayout> {
        Seq::new(12, |index: int| Self::field_layout(index))
    }

    /// Where the fields before field `index` end, in a structure at `address`.
    pub open spec fn end_before(address: Address, index: int) -> int {
        end_after(address@, Self::fields(), index)
    }

    /// What the reading of field `index` did to arrive at that field of `value`.
    /// Kept out of sight of the prover until it is revealed.
    #[verifier::opaque]
    pub open spec fn field_read(address: Address, value: Self, index: int, events: Seq<ReadEvent>) -> bool {
        if index == 0 {
            field_step::<Address>(
                address,
                Self::end_before(address, 0),
                field_context_text("MonoVTable"@, "class"@),
                events,
                Ok(value.class),
            )
        } else if index == 1 {
            field_step::<Option<Address>>(
                address,
                Self::end_before(address, 1),
                field_context_text("MonoVTable"@, "gc_descr"@),
                events,
                Ok(value.gc_descr),
            )
        } else if index == 2 {
            field_step::<Option<Address>>(
                address,
                Self::end_before(address, 2),
                field_context_text("MonoVTable"@, "domain"@),
                events,
                Ok(value.domain),
            )
        } else if index == 3 {
            field_step::<Option<Address>>(
                address,
                Self::end_before(address, 3),
                field_context_text("MonoVTable"@, "typ"@),
                events,
                Ok(value.typ),
            )
        } else if index == 4 {
            field_step::<Option<Address>>(
                address,
                Self::end_before(address, 4),
                field_context_text("MonoVTable"@, "interface_bitmap"@),
                events,
                Ok(value.interface_bitmap),
            )
        } else if index == 5 {
            field_step::<u32>(
                address,
                Self::end_before(address, 5),
                field_context_text("MonoVTable"@, "max_interface_id"@),
                events,
                Ok(value.max_interface_id),
            )
        } else if index == 6 {
            field_step::<u8>(
                address,
                Self::end_before(address, 6),
                field_context_text("MonoVTable"@, "rank"@),
                events,
                Ok(value.rank),
            )
        } else if index == 7 {
            field_step::<u8>(
                address,
                Self::end_before(address, 7),
                field_context_text("MonoVTable"@, "initialized"@),
                events,
                Ok(value.initialized),
            )
        } else if index == 8 {
            field_step::<u32>(
                address,
                Self::end_before(address, 8),
                field_context_text("MonoVTable"@, "bitfield"@),
                events,
                Ok(value.bitfield),
            )
        } else if index == 9 {
            field_step::<u32>(
                address,
                Self::end_before(address, 9),
                field_context_text("MonoVTable"@, "imt_collisions_bitmap"@),
                events,
                Ok(value.imt_collisions_bitmap),
            )
        } else if index == 10 {
            field_step::<Option<Address>>(
                address,
                Self::end_before(address, 10),
                field_context_text("MonoVTable"@, "runtime_generic_context"@),
                events,
                Ok(value.runtime_generic_context),
            )
        } else {
            field_step::<ZeroLengthArray<Address>>(
                address,
                Self::end_before(address, 11),
                field_context_text("MonoVTable"@, "vtable"@),
                events,
                Ok(value.vtable),
            )
        }
    }

    /// What the reading of field `index` did to fail with `error`. Kept out of
    /// sight of the prover until it is revealed.
    #[verifier::opaque]
    pub open spec fn field_fails(address: Address, index: int, events: Seq<ReadEvent>, error: Error) -> bool {
        if index == 0 {
            field_step::<Address>(
                address,
                Self::end_before(address, 0),
                field_context_text("MonoVTable"@, "class"@),
                events,
                Err(error),
            )
        } else if index == 1 {
            field_step::<Option<Address>>(
                address,
                Self::end_before(address, 1),
                field_context_text("MonoVTable"@, "gc_descr"@),
                events,
                Err(error),
            )
        } else if index == 2 {
            field_step::<Option<Address>>(
                address,
                Self::end_before(address, 2),
                field_context_text("MonoVTable"@, "domain"@),
                events,
                Err(error),
            )
        } else if index == 3 {
            field_step::<Option<Address>>(
                address,
                Self::end_before(address, 3),
                field_context_text("MonoVTable"@, "typ"@),
                events,
                Err(error),
            )
        } else if index == 4 {
            field_step::<Option<Address>>(
                address,
                Self::end_before(address, 4),
                field_context_text("MonoVTable"@, "interface_bitmap"@),
                events,
                Err(error),
            )
        } else if index == 5 {
            field_step::<u32>(
                address,
                Self::end_before(address, 5),
                field_context_text("MonoVTable"@, "max_interface_id"@),
                events,
                Err(error),
            )
        } else if index == 6 {
            field_step::<u8>(
                address,
                Self::end_before(address, 6),
                field_context_text("MonoVTable"@, "rank"@),
                events,
                Err(error),
            )
        } else if index == 7 {
            field_step::<u8>(
                address,
                Self::end_before(address, 7),
                field_context_text("MonoVTable"@, "initialized"@),
                events,
                Err(error),
            )
        } else if index == 8 {
            field_step::<u32>(
                address,
                Self::end_before(address, 8),
                field_context_text("MonoVTable"@, "bitfield"@),
                events,
                Err(error),
            )
        } else if index == 9 {
            field_step::<u32>(
                address,
                Self::end_before(address, 9),
                field_context_text("MonoVTable"@, "imt_collisions_bitmap"@),
                events,
                Err(error),
            )
        } else if index == 10 {
            field_step::<Option<Address>>(
                address,
                Self::end_before(address, 10),
                field_context_text("MonoVTable"@, "runtime_generic_context"@),
                events,
                Err(error),
            )
        } else {
            field_step::<ZeroLengthArray<Address>>(
                address,
                Self::end_before(address, 11),
                field_context_text("MonoVTable"@, "vtable"@),
                events,
                Err(error),
            )
        }
    }

    /// What the reading of each field did, for the fields of `value`.
    pub open spec fn fields_read(address: Address, value: Self) -> spec_fn(int, Seq<ReadEvent>) -> bool {
        |index: int, events: Seq<ReadEvent>| Self::field_read(address, value, index, events)
    }

    /// The fields of `value` were read in declaration order, each at the end of
    /// the one before it rounded up to its own alignment, with exactly the
    /// requests in `events`.
    pub open spec fn reads_fields(address: Address, events: Seq<ReadEvent>, value: Self) -> bool {
        exists|cuts: Seq<int>| #[trigger]
            stretches(12, cuts, events, Self::fields_read(address, value)) && cuts.last() == events.len()
    }

    /// The reading ended with a field that could not be read: `error` is that
    /// field's error, wrapped in a context that names the field.
    pub open spec fn fails_at_field(address: Address, events: Seq<ReadEvent>, error: Error) -> bool {
        exists|index: int, cut: int|
            0 <= index < 12 && 0 <= cut <= events.len() && #[trigger] Self::field_fails(
                address,
                index,
                events.skip(cut),
                error,
            )
    }

    /// When a history grew through one state for each field, and what was added
    /// from each state to the next is the reading of that field of `value`, the
    /// whole of what was added is the reading of `value`.
    pub proof fn lemma_reads_fields(address: Address, value: Self, histories: Seq<Seq<ReadEvent>>)
        requires
            histories.len() == 13,
            forall|i: int|
                0 <= i < 12 ==> (#[trigger] histories[i]).is_prefix_of(histories[i + 1]) && Self::field_read(
                    address,
                    value,
                    i,
                    events_since(histories[i], histories[i + 1]),
                ),
        ensures
            Self::reads_fields(address, events_since(histories[0], histories[12]), value),
    {
        let step = Self::fields_read(address, value);
        assert forall|i: int| 0 <= i < 12 implies (#[trigger] histories[i]).is_prefix_of(histories[i + 1]) && step(
            i,
            events_since(histories[i], histories[i + 1]),
        ) by {
            assert(Self::field_read(address, value, i, events_since(histories[i], histories[i + 1])));
        }
        let cuts = lemma_stretches_chain(12, histories, step);
        assert(stretches(12, cuts, events_since(histories[0], histories[12]), Self::fields_read(address, value)));
    }

    /// The size and alignment of the structure are those of its fields laid
    /// out in declaration order.
    pub proof fn lemma_fields()
        ensures
            fields_aligned(Self::fields()),
            Self::fields().len() == 12,
    {
        <Address>::lemma_layout();
        <Option<Address>>::lemma_layout();
        <Option<Address>>::lemma_layout();
        <Option<Address>>::lemma_layout();
        <Option<Address>>::lemma_layout();
        <u32>::lemma_layout();
        <u8>::lemma_layout();
        <u8>::lemma_layout();
        <u32>::lemma_layout();
        <u32>::lemma_layout();
        <Option<Address>>::lemma_layout();
        <ZeroLengthArray<Address>>::lemma_layout();
    }
}

impl MonoVTable {
    /// The size and the alignment of the structure are those of its fields laid
    /// out in declaration order.
    pub proof fn lemma_size()
        ensures
            <Self as Deserialize>::NUM_BYTES == struct_num_bytes(Self::fields()),
            <Self as Deserialize>::ALIGNMENT == struct_alignment(Self::fields()),
    {
        Self::lemma_fields();
        lemma_small_powers_of_two();
        <Address>::lemma_layout();
        <Option<Address>>::lemma_layout();
        <ZeroLengthArray<Address>>::lemma_layout();
        <u32>::lemma_layout();
        <u8>::lemma_layout();
        assert(end_after(0, Self::fields(), 0) == 0);
        assert(alignment_among(Self::fields(), 0) == 1);
        assert(Self::fields()[0] == FieldLayout { num_bytes: 8, alignment: 8 });
        assert(end_after(0, Self::fields(), 1) == 8);
        assert(Self::fields()[1] == FieldLayout { num_bytes: 8, alignment: 8 });
        assert(end_after(0, Self::fields(), 2) == 16);
        assert(Self::fields()[2] == FieldLayout { num_bytes: 8, alignment: 8 });
        assert(end_after(0, Self::fields(), 3) == 24);
        assert(Self::fields()[3] == FieldLayout { num_bytes: 8, alignment: 8 });
        assert(end_after(0, Self::fields(), 4) == 32);
        assert(Self::fields()[4] == FieldLayout { num_bytes: 8, alignment: 8 });
        assert(end_after(0, Self::fields(), 5) == 40);
        assert(Self::fields()[5] == FieldLayout { num_bytes: 4, alignment: 4 });
        assert(end_after(0, Self::fields(), 6) == 44);
        assert(Self::fields()[6] == FieldLayout { num_bytes: 1, alignment: 1 });
        assert(end_after(0, Self::fields(), 7) == 45);
        assert(Self::fields()[7] == FieldLayout { num_bytes: 1, alignment: 1 });
        assert(end_after(0, Self::fields(), 8) == 46);
        assert(Self::fields()[8] == FieldLayout { num_bytes: 4, alignment: 4 });
        assert(end_after(0, Self::fields(), 9) == 52);
        assert(Self::fields()[9] == FieldLayout { num_bytes: 4, alignment: 4 });
        assert(end_after(0, Self::fields(), 10) == 56);
        assert(Self::fields()[10] == FieldLayout { num_bytes: 8, alignment: 8 });
        assert(end_after(0, Self::fields(), 11) == 64);
        assert(Self::fields()[11] == FieldLayout { num_bytes: 0, alignment: 8 });
        assert(end_after(0, Self::fields(), 12) == 64);
        assert(alignment_among(Self::fields(), 1) == 8);
        assert(alignment_among(Self::fields(), 2) == 8);
        assert(alignment_among(Self::fields(), 3) == 8);
        assert(alignment_among(Self::fields(), 4) == 8);
        assert(alignment_among(Self::fields(), 5) == 8);
        assert(alignment_among(Self::fields(), 6) == 8);
        assert(alignment_among(Self::fields(), 7) == 8);
        assert(alignment_among(Self::fields(), 8) == 8);
        assert(alignment_among(Self::fields(), 9) == 8);
        assert(alignment_among(Self::fields(), 10) == 8);
        assert(alignment_among(Self::fields(), 11) == 8);
        assert(alignment_among(Self::fields(), 12) == 8);
    }
}

impl Deserialize for MonoVTable {
    const NUM_BYTES: usize = 64;

    const ALIGNMENT: usize = 8;

    open spec fn layout() -> FieldLayout {
        FieldLayout { num_bytes: 64, alignment: 8 }
    }

    proof fn lemma_layout() {
        lemma_small_powers_of_two();
    }

    /// The fields are read in declaration order, each at the end of the one
    /// before it rounded up to its own alignment. The first field that cannot
    /// be read ends the reading; its error is the outcome, wrapped in a
    /// context that names the field.
    open spec fn decodes(address: Address, events: Seq<ReadEvent>, outcome: Result<Self, Error>) -> bool {
        match outcome {
            Ok(value) => Self::reads_fields(address, events, value),
            Err(error) => Self::fails_at_field(address, events, error),
        }
    }

    fn deserialize<M: MemoryReader>(reader: &mut M, address: Address) -> (r: Result<Self, Error>) {
        let ghost h0 = reader.history();
        let mut cursor = FieldCursor::new(address);
        proof {
            Self::lemma_fields();
            lemma_no_events(h0);
            assert(Self::end_before(address, 0) == address@);
        }
        let field0 = match cursor.field::<Address, M>(reader, "MonoVTable", "class") {
            Ok(value) => value,
            Err(error) => {
                proof {
                    lemma_events_chain(h0, h0, reader.history());
                    let cut = events_since(h0, h0).len() as int;
                    assert(Self::field_fails(address, 0, events_since(h0, reader.history()).skip(cut), error)) by {
                        reveal(MonoVTable::field_fails);
                    }
                    assert(Self::fails_at_field(address, events_since(h0, reader.history()), error));
                }
                return Err(error);
            },
        };
        let ghost h1 = reader.history();
        proof {
            lemma_prefix_trans(h0, h0, h1);
            assert(cursor.end() == Self::end_before(address, 1));
        }
        let field1 = match cursor.field::<Option<Address>, M>(reader, "MonoVTable", "gc_descr") {
            Ok(value) => value,
            Err(error) => {
                proof {
                    lemma_events_chain(h0, h1, reader.history());
                    let cut = events_since(h0, h1).len() as int;
                    assert(Self::field_fails(address, 1, events_since(h0, reader.history()).skip(cut), error)) by {
                        reveal(MonoVTable::field_fails);
                    }
                    assert(Self::fails_at_field(address, events_since(h0, reader.history()), error));
                }
                return Err(error);
            },
        };
        let ghost h2 = reader.history();
        proof {
            lemma_prefix_trans(h0, h1, h2);
            assert(cursor.end() == Self::end_before(address, 2));
        }
        let field2 = match cursor.field::<Option<Address>, M>(reader, "MonoVTable", "domain") {
            Ok(value) => value,
            Err(error) => {
                proof {
                    lemma_events_chain(h0, h2, reader.history());
                    let cut = events_since(h0, h2).len() as int;
                    assert(Self::field_fails(address, 2, events_since(h0, reader.history()).skip(cut), error)) by {
                        reveal(MonoVTable::field_fails);
                    }
                    assert(Self::fails_at_field(address, events_since(h0, reader.history()), error));
                }
                return Err(error);
            },
        };
        let ghost h3 = reader.history();
        proof {
            lemma_prefix_trans(h0, h2, h3);
            assert(cursor.end() == Self::end_before(address, 3));
        }
        let field3 = match cursor.field::<Option<Address>, M>(reader, "MonoVTable", "typ") {
            Ok(value) => value,
            Err(error) => {
                proof {
                    lemma_events_chain(h0, h3, reader.history());
                    let cut = events_since(h0, h3).len() as int;
                    assert(Self::field_fails(address, 3, events_since(h0, reader.history()).skip(cut), error)) by {
                        reveal(MonoVTable::field_fails);
                    }
                    assert(Self::fails_at_field(address, events_since(h0, reader.history()), error));
                }
                return Err(error);
            },
        };
        let ghost h4 = reader.history();
        proof {
            lemma_prefix_trans(h0, h3, h4);
            assert(cursor.end() == Self::end_before(address, 4));
        }
        let field4 = match cursor.field::<Option<Address>, M>(reader, "MonoVTable", "interface_bitmap") {
            Ok(value) => value,
            Err(error) => {
                proof {
                    lemma_events_chain(h0, h4, reader.history());
                    let cut = events_since(h0, h4).len() as int;
                    assert(Self::field_fails(address, 4, events_since(h0, reader.history()).skip(cut), error)) by {
                        reveal(MonoVTable::field_fails);
                    }
                    assert(Self::fails_at_field(address, events_since(h0, reader.history()), error));
                }
                return Err(error);
            },
        };
        let ghost h5 = reader.history();
        proof {
            lemma_prefix_trans(h0, h4, h5);
            assert(cursor.end() == Self::end_before(address, 5));
        }
        let field5 = match cursor.field::<u32, M>(reader, "MonoVTable", "max_interface_id") {
            Ok(value) => value,
            Err(error) => {
                proof {
                    lemma_events_chain(h0, h5, reader.history());
                    let cut = events_since(h0, h5).len() as int;
                    assert(Self::field_fails(address, 5, events_since(h0, reader.history()).skip(cut), error)) by {
                        reveal(MonoVTable::field_fails);
                    }
                    assert(Self::fails_at_field(address, events_since(h0, reader.history()), error));
                }
                return Err(error);
            },
        };
        let ghost h6 = reader.history();
        proof {
            lemma_prefix_trans(h0, h5, h6);
            assert(cursor.end() == Self::end_before(address, 6));
        }
        let field6 = match cursor.field::<u8, M>(reader, "MonoVTable", "rank") {
            Ok(value) => value,
            Err(error) => {
                proof {
                    lemma_events_chain(h0, h6, reader.history());
                    let cut = events_since(h0, h6).len() as int;
                    assert(Self::field_fails(address, 6, events_since(h0, reader.history()).skip(cut), error)) by {
                        reveal(MonoVTable::field_fails);
                    }
                    assert(Self::fails_at_field(address, events_since(h0, reader.history()), error));
                }
                return Err(error);
            },
        };
        let ghost h7 = reader.history();
        proof {
            lemma_prefix_trans(h0, h6, h7);
            assert(cursor.end() == Self::end_before(address, 7));
        }
        let field7 = match cursor.field::<u8, M>(reader, "MonoVTable", "initialized") {
            Ok(value) => value,
            Err(error) => {
                proof {
                    lemma_events_chain(h0, h7, reader.history());
                    let cut = events_since(h0, h7).len() as int;
                    assert(Self::field_fails(address, 7, events_since(h0, reader.history()).skip(cut), error)) by {
                        reveal(MonoVTable::field_fails);
                    }
                    assert(Self::fails_at_field(address, events_since(h0, reader.history()), error));
                }
                return Err(error);
            },
        };
        let ghost h8 = reader.history();
        proof {
            lemma_prefix_trans(h0, h7, h8);
            assert(cursor.end() == Self::end_before(address, 8));
        }
        let field8 = match cursor.field::<u32, M>(reader, "MonoVTable", "bitfield") {
            Ok(value) => value,
            Err(error) => {
                proof {
                    lemma_events_chain(h0, h8, reader.history());
                    let cut = events_since(h0, h8).len() as int;
                    assert(Self::field_fails(address, 8, events_since(h0, reader.history()).skip(cut), error)) by {
                        reveal(MonoVTable::field_fails);
                    }
                    assert(Self::fails_at_field(address, events_since(h0, reader.history()), error));
                }
                return Err(error);
            },
        };
        let ghost h9 = reader.history();
        proof {
            lemma_prefix_trans(h0, h8, h9);
            assert(cursor.end() == Self::end_before(address, 9));
        }
        let field9 = match cursor.field::<u32, M>(reader, "MonoVTable", "imt_collisions_bitmap") {
            Ok(value) => value,
            Err(error) => {
                proof {
                    lemma_events_chain(h0, h9, reader.history());
                    let cut = events_since(h0, h9).len() as int;
                    assert(Self::field_fails(address, 9, events_since(h0, reader.history()).skip(cut), error)) by {
                        reveal(MonoVTable::field_fails);
                    }
                    assert(Self::fails_at_field(address, events_since(h0, reader.history()), error));
                }
                return Err(error);
            },
        };
        let ghost h10 = reader.history();
        proof {
            lemma_prefix_trans(h0, h9, h10);
            assert(cursor.end() == Self::end_before(address, 10));
        }
        let field10 = match cursor.field::<Option<Address>, M>(reader, "MonoVTable", "runtime_generic_context") {
            Ok(value) => value,
            Err(error) => {
                proof {
                    lemma_events_chain(h0, h10, reader.history());
                    let cut = events_since(h0, h10).len() as int;
                    assert(Self::field_fails(address, 10, events_since(h0, reader.history()).skip(cut), error)) by {
                        reveal(MonoVTable::field_fails);
                    }
                    assert(Self::fails_at_field(address, events_since(h0, reader.history()), error));
                }
                return Err(error);
            },
        };
        let ghost h11 = reader.history();
        proof {
            lemma_prefix_trans(h0, h10, h11);
            assert(cursor.end() == Self::end_before(address, 11));
        }
        let field11 = match cursor.field::<ZeroLengthArray<Address>, M>(reader, "MonoVTable", "vtable") {
            Ok(value) => value,
            Err(error) => {
                proof {
                    lemma_events_chain(h0, h11, reader.history());
                    let cut = events_since(h0, h11).len() as int;
                    assert(Self::field_fails(address, 11, events_since(h0, reader.history()).skip(cut), error)) by {
                        reveal(MonoVTable::field_fails);
                    }
                    assert(Self::fails_at_field(address, events_since(h0, reader.history()), error));
                }
                return Err(error);
            },
        };
        let ghost h12 = reader.history();
        proof {
            lemma_prefix_trans(h0, h11, h12);
            assert(cursor.end() == Self::end_before(address, 12));
        }
        let value = Self { class: field0, gc_descr: field1, domain: field2, typ: field3, interface_bitmap: field4, max_interface_id: field5, rank: field6, initialized: field7, bitfield: field8, imt_collisions_bitmap: field9, runtime_generic_context: field10, vtable: field11 };
        proof {
            let histories = Seq::new(13, |i: int|
                if i == 0 {
                    h0
                } else if i == 1 {
                    h1
                } else if i == 2 {
                    h2
                } else if i == 3 {
                    h3
                } else if i == 4 {
                    h4
                } else if i == 5 {
                    h5
                } else if i == 6 {
                    h6
                } else if i == 7 {
                    h7
                } else if i == 8 {
                    h8
                } else if i == 9 {
                    h9
                } else if i == 10 {
                    h10
                } else if i == 11 {
                    h11
                } else {
                    h12
                });
            assert forall|i: int| 0 <= i < 12 implies (#[trigger] histories[i]).is_prefix_of(histories[i + 1])
                && Self::field_read(address, value, i, events_since(histories[i], histories[i + 1])) by {
                if i == 0 {
                    assert(Self::field_read(address, value, 0, events_since(h0, h1))) by {
                        reveal(MonoVTable::field_read);
                    }
                } else if i == 1 {
                    assert(Self::field_read(address, value, 1, events_since(h1, h2))) by {
                        reveal(MonoVTable::field_read);
                    }
                } else if i == 2 {
                    assert(Self::field_read(address, value, 2, events_since(h2, h3))) by {
                        reveal(MonoVTable::field_read);
                    }
                } else if i == 3 {
                    assert(Self::field_read(address, value, 3, events_since(h3, h4))) by {
                        reveal(MonoVTable::field_read);
                    }
                } else if i == 4 {
                    assert(Self::field_read(address, value, 4, events_since(h4, h5))) by {
                        reveal(MonoVTable::field_read);
                    }
                } else if i == 5 {
                    assert(Self::field_read(address, value, 5, events_since(h5, h6))) by {
                        reveal(MonoVTable::field_read);
                    }
                } else if i == 6 {
                    assert(Self::field_read(address, value, 6, events_since(h6, h7))) by {
                        reveal(MonoVTable::field_read);
                    }
                } else if i == 7 {
                    assert(Self::field_read(address, value, 7, events_since(h7, h8))) by {
                        reveal(MonoVTable::field_read);
                    }
                } else if i == 8 {
                    assert(Self::field_read(address, value, 8, events_since(h8, h9))) by {
                        reveal(MonoVTable::field_read);
                    }
                } else if i == 9 {
                    assert(Self::field_read(address, value, 9, events_since(h9, h10))) by {
                        reveal(MonoVTable::field_read);
                    }
                } else if i == 10 {
                    assert(Self::field_read(address, value, 10, events_since(h10, h11))) by {
                        reveal(MonoVTable::field_read);
                    }
                } else if i == 11 {
                    assert(Self::field_read(address, value, 11, events_since(h11, h12))) by {
                        reveal(MonoVTable::field_read);
                    }
                }
            }
            Self::lemma_reads_fields(address, value, histories);
        }
        Ok(value)
    }
}

impl MonoVTable {
    /// The pointer to the class that the table belongs to.
    pub fn class_ptr(&self) -> (r: Ptr<Class>)
        ensures
            r.target() == self.class,
    {
        Ptr::new(self.class)
    }

    /// Whether the table is of a remote class.
    #[must_use]
    pub fn remote(&self) -> (r: bool)
        ensures
            r <==> self.bitfield & 0x8000_0000 == 0x8000_0000,
    {
        has_flag(self.bitfield, 0b1000_0000_0000_0000_0000_0000_0000_0000)
    }

    /// Whether the class failed to initialise.
    #[must_use]
    pub fn init_failed(&self) -> (r: bool)
        ensures
            r <==> self.bitfield & 0x4000_0000 == 0x4000_0000,
    {
        has_flag(self.bitfield, 0b0100_0000_0000_0000_0000_0000_0000_0000)
    }

    /// Whether the class has static fields.
    #[must_use]
    pub fn has_static_fields(&self) -> (r: bool)
        ensures
            r <==> self.bitfield & 0x2000_0000 == 0x2000_0000,
    {
        has_flag(self.bitfield, 0b0010_0000_0000_0000_0000_0000_0000_0000)
    }
}

/// The per-domain tables of a class: their number, and then a pointer to each.
pub struct MonoClassRuntimeInfo {
    pub max_domain: u16,
    pub domain_vtables: ZeroLengthArray<Eager<Ptr<MonoVTable>>>,
}

impl MonoClassRuntimeInfo {
    /// The layout of field `index`, in declaration order.
    pub open spec fn field_layout(index: int) -> FieldLayout {
        if index == 0 {
            FieldLayout::spec_of::<u16>()
        } else {
            FieldLayout::spec_of::<ZeroLengthArray<Eager<Ptr<MonoVTable>>>>()
        }
    }

    /// The layouts of the fields, in declaration order.
    pub open spec fn fields() -> Seq<FieldLayout> {
        Seq::new(2, |index: int| Self::field_layout(index))
    }

    /// Where the fields before field `index` end, in a structure at `address`.
    pub open spec fn end_before(address: Address, index: int) -> int {
        end_after(address@, Self::fields(), index)
    }

    /// What the reading of field `index` did to arrive at that field of `value`.
    /// Kept out of sight of the prover until it is revealed.
    #[verifier::opaque]
    pub open spec fn field_read(address: Address, value: Self, index: int, events: Seq<ReadEvent>) -> bool {
        if index == 0 {
            field_step::<u16>(
                address,
                Self::end_before(address, 0),
                field_context_text("MonoClassRuntimeInfo"@, "max_domain"@),
                events,
                Ok(value.max_domain),
            )
        } else {
            field_step::<ZeroLengthArray<Eager<Ptr<MonoVTable>>>>(
                address,
                Self::end_before(address, 1),
                field_context_text("MonoClassRuntimeInfo"@, "domain_vtables"@),
                events,
                Ok(value.domain_vtables),
            )
        }
    }

    /// What the reading of field `index` did to fail with `error`. Kept out of
    /// sight of the prover until it is revealed.
    #[verifier::opaque]
    pub open spec fn field_fails(address: Address, index: int, events: Seq<ReadEvent>, error: Error) -> bool {
        if index == 0 {
            field_step::<u16>(
                address,
                Self::end_before(address, 0),
                field_context_text("MonoClassRuntimeInfo"@, "max_domain"@),
                events,
                Err(error),
            )
        } else {
            field_step::<ZeroLengthArray<Eager<Ptr<MonoVTable>>>>(
                address,
                Self::end_before(address, 1),
                field_context_text("MonoClassRuntimeInfo"@, "domain_vtables"@),
                events,
                Err(error),
            )
        }
    }

    /// What the reading of each field did, for the fields of `value`.
    pub open spec fn fields_read(address: Address, value: Self) -> spec_fn(int, Seq<ReadEvent>) -> bool {
        |index: int, events: Seq<ReadEvent>| Self::field_read(address, value, index, events)
    }

    /// The fields of `value` were read in declaration order, each at the end of
    /// the one before it rounded up to its own alignment, with exactly the
    /// requests in `events`.
    pub open spec fn reads_fields(address: Address, events: Seq<ReadEvent>, value: Self) -> bool {
        exists|cuts: Seq<int>| #[trigger]
            stretches(2, cuts, events, Self::fields_read(address, value)) && cuts.last() == events.len()
    }

    /// The reading ended with a field that could not be read: `error` is that
    /// field's error, wrapped in a context that names the field.
    pub open spec fn fails_at_field(address: Address, events: Seq<ReadEvent>, error: Error) -> bool {
        exists|index: int, cut: int|
            0 <= index < 2 && 0 <= cut <= events.len() && #[trigger] Self::field_fails(
                address,
                index,
                events.skip(cut),
                error,
            )
    }

    /// When a history grew through one state for each field, and what was added
    /// from each state to the next is the reading of that field of `value`, the
    /// whole of what was added is the reading of `value`.
    pub proof fn lemma_reads_fields(address: Address, value: Self, histories: Seq<Seq<ReadEvent>>)
        requires
            histories.len() == 3,
            forall|i: int|
                0 <= i < 2 ==> (#[trigger] histories[i]).is_prefix_of(histories[i + 1]) && Self::field_read(
                    address,
                    value,
                    i,
                    events_since(histories[i], histories[i + 1]),
                ),
        ensures
            Self::reads_fields(address, events_since(histories[0], histories[2]), value),
    {
        let step = Self::fields_read(address, value);
        assert forall|i: int| 0 <= i < 2 implies (#[trigger] histories[i]).is_prefix_of(histories[i + 1]) && step(
            i,
            events_since(histories[i], histories[i + 1]),
        ) by {
            assert(Self::field_read(address, value, i, events_since(histories[i], histories[i + 1])));
        }
        let cuts = lemma_stretches_chain(2, histories, step);
        assert(stretches(2, cuts, events_since(histories[0], histories[2]), Self::fields_read(address, value)));
    }

    /// The size and alignment of the structure are those of its fields laid
    /// out in declaration order.
    pub proof fn lemma_fields()
        ensures
            fields_aligned(Self::fields()),
            Self::fields().len() == 2,
    {
        <u16>::lemma_layout();
        <ZeroLengthArray<Eager<Ptr<MonoVTable>>>>::lemma_layout();
    }
}

impl MonoClassRuntimeInfo {
    /// The size and the alignment of the structure are those of its fields laid
    /// out in declaration order.
    pub proof fn lemma_size()
        ensures
            <Self as Deserialize>::NUM_BYTES == struct_num_bytes(Self::fields()),
            <Self as Deserialize>::ALIGNMENT == struct_alignment(Self::fields()),
    {
        Self::lemma_fields();
        lemma_small_powers_of_two();
        <ZeroLengthArray<Eager<Ptr<MonoVTable>>>>::lemma_layout();
        <u16>::lemma_layout();
        assert(end_after(0, Self::fields(), 0) == 0);
        assert(alignment_among(Self::fields(), 0) == 1);
        assert(Self::fields()[0] == FieldLayout { num_bytes: 2, alignment: 2 });
        assert(end_after(0, Self::fields(), 1) == 2);
        assert(Self::fields()[1] == FieldLayout { num_bytes: 0, alignment: 8 });
        assert(end_after(0, Self::fields(), 2) == 8);
        assert(alignment_among(Self::fields(), 1) == 2);
        assert(alignment_among(Self::fields(), 2) == 8);
    }
}

impl Deserialize for MonoClassRuntimeInfo {
    const NUM_BYTES: usize = 8;

    const ALIGNMENT: usize = 8;

    open spec fn layout() -> FieldLayout {
        FieldLayout { num_bytes: 8, alignment: 8 }
    }

    proof fn lemma_layout() {
        lemma_small_powers_of_two();
    }

    /// The fields are read in declaration order, each at the end of the one
    /// before it rounded up to its own alignment. The first field that cannot
    /// be read ends the reading; its error is the outcome, wrapped in a
    /// context that names the field.
    open spec fn decodes(address: Address, events: Seq<ReadEvent>, outcome: Result<Self, Error>) -> bool {
        match outcome {
            Ok(value) => Self::reads_fields(address, events, value),
            Err(error) => Self::fails_at_field(address, events, error),
        }
    }

    fn deserialize<M: MemoryReader>(reader: &mut M, address: Address) -> (r: Result<Self, Error>) {
        let ghost h0 = reader.history();
        let mut cursor = FieldCursor::new(address);
        proof {
            Self::lemma_fields();
            lemma_no_events(h0);
            assert(Self::end_before(address, 0) == address@);
        }
        let field0 = match cursor.field::<u16, M>(reader, "MonoClassRuntimeInfo", "max_domain") {
            Ok(value) => value,
            Err(error) => {
                proof {
                    lemma_events_chain(h0, h0, reader.history());
                    let cut = events_since(h0, h0).len() as int;
                    assert(Self::field_fails(address, 0, events_since(h0, reader.history()).skip(cut), error)) by {
                        reveal(MonoClassRuntimeInfo::field_fails);
                    }
                    assert(Self::fails_at_field(address, events_since(h0, reader.history()), error));
                }
                return Err(error);
            },
        };
        let ghost h1 = reader.history();
        proof {
            lemma_prefix_trans(h0, h0, h1);
            assert(cursor.end() == Self::end_before(address, 1));
        }
        let field1 = match cursor.field::<ZeroLengthArray<Eager<Ptr<MonoVTable>>>, M>(reader, "MonoClassRuntimeInfo", "domain_vtables") {
            Ok(value) => value,
            Err(error) => {
                proof {
                    lemma_events_chain(h0, h1, reader.history());
                    let cut = events_since(h0, h1).len() as int;
                    assert(Self::field_fails(address, 1, events_since(h0, reader.history()).skip(cut), error)) by {
                        reveal(MonoClassRuntimeInfo::field_fails);
                    }
                    assert(Self::fails_at_field(address, events_since(h0, reader.history()), error));
                }
                return Err(error);
            },
        };
        let ghost h2 = reader.history();
        proof {
            lemma_prefix_trans(h0, h1, h2);
            assert(cursor.end() == Self::end_before(address, 2));
        }
        let value = Self { max_domain: field0, domain_vtables: field1 };
        proof {
            let histories = Seq::new(3, |i: int|
                if i == 0 {
                    h0
                } else if i == 1 {
                    h1
                } else {
                    h2
                });
            assert forall|i: int| 0 <= i < 2 implies (#[trigger] histories[i]).is_prefix_of(histories[i + 1])
                && Self::field_read(address, value, i, events_since(histories[i], histories[i + 1])) by {
                if i == 0 {
                    assert(Self::field_read(address, value, 0, events_since(h0, h1))) by {
                        reveal(MonoClassRuntimeInfo::field_read);
                    }
                } else if i == 1 {
                    assert(Self::field_read(address, value, 1, events_since(h1, h2))) by {
                        reveal(MonoClassRuntimeInfo::field_read);
                    }
                }
            }
            Self::lemma_reads_fields(address, value, histories);
        }
        Ok(value)
    }
}

/// A class as the other process lays it out.
pub struct ClassInternals {
    pub element_class: Option<Address>,
    pub cast_class: Option<Address>,
    pub supertypes: Option<Address>,
    pub idepth: u16,
    pub rank: u8,
    pub instance_size: i32,
    pub _bitfields_group_1: u8,
    pub min_align: u8,
    pub _bitfields_group_2: [u8; 4],
    pub parent: Option<Address>,
    pub nested_in: Option<Address>,
    pub image: Option<Address>,
    pub name: String,
    pub name_space: String,
    pub type_token: u32,
    pub vtable_size: i32,
    pub interface_count: u16,
    pub interface_id: u32,
    pub max_interface_id: u32,
    pub interface_offsets_count: u16,
    pub interfaces_packed: Option<Address>,
    pub interface_offsets_packed: Option<Address>,
    pub interface_bitmap: Option<Address>,
    pub interfaces: Option<Address>,
    pub sizes: i32,
    pub fields: ArrayPtr<MonoClassField>,
    pub methods: Option<Address>,
    pub this_arg: MonoType,
    pub byval_arg: MonoType,
    pub gc_descr: Option<Address>,
    pub runtime_info: Eager<Option<Ptr<MonoClassRuntimeInfo>>>,
    pub vtable: Option<Address>,
    pub infrequent_data: Option<Address>,
    pub unity_user_data: Option<Address>,
    pub flags: u32,
    pub first_method_idx: u32,
    pub first_field_idx: u32,
    pub method_count: u32,
    pub field_count: u32,
    pub next_class_cache: Option<Address>,
}

impl ClassInternals {
    /// The layout of field `index`, in declaration order.
    pub open spec fn field_layout(index: int) -> FieldLayout {
        if index == 0 {
            FieldLayout::spec_of::<Option<Address>>()
        } else if index == 1 {
            FieldLayout::spec_of::<Option<Address>>()
        } else if index == 2 {
            FieldLayout::spec_of::<Option<Address>>()
        } else if index == 3 {
            FieldLayout::spec_of::<u16>()
        } else if index == 4 {
            FieldLayout::spec_of::<u8>()
        } else if index == 5 {
            FieldLayout::spec_of::<i32>()
        } else if index == 6 {
            FieldLayout::spec_of::<u8>()
        } else if index == 7 {
            FieldLayout::spec_of::<u8>()
        } else if index == 8 {
            FieldLayout::spec_of::<[u8; 4]>()
        } else if index == 9 {
            FieldLayout::spec_of::<Option<Address>>()
        } else if index == 10 {
            FieldLayout::spec_of::<Option<Address>>()
        } else if index == 11 {
            FieldLayout::spec_of::<Option<Address>>()
        } else if index == 12 {
            FieldLayout::spec_of::<String>()
        } else if index == 13 {
            FieldLayout::spec_of::<String>()
        } else if index == 14 {
            FieldLayout::spec_of::<u32>()
        } else if index == 15 {
            FieldLayout::spec_of::<i32>()
        } else if index == 16 {
            FieldLayout::spec_of::<u16>()
        } else if index == 17 {
            FieldLayout::spec_of::<u32>()
        } else if index == 18 {
            FieldLayout::spec_of::<u32>()
        } else if index == 19 {
            FieldLayout::spec_of::<u16>()
        } else if index == 20 {
            FieldLayout::spec_of::<Option<Address>>()
        } else if index == 21 {
            FieldLayout::spec_of::<Option<Address>>()
        } else if index == 22 {
            FieldLayout::spec_of::<Option<Address>>()
        } else if index == 23 {
            FieldLayout::spec_of::<Option<Address>>()
        } else if index == 24 {
            FieldLayout::spec_of::<i32>()
        } else if index == 25 {
            FieldLayout::spec_of::<ArrayPtr<MonoClassField>>()
        } else if index == 26 {
            FieldLayout::spec_of::<Option<Address>>()
        } else if index == 27 {
            FieldLayout::spec_of::<MonoType>()
        } else if index == 28 {
            FieldLayout::spec_of::<MonoType>()
        } else if index == 29 {
            FieldLayout::spec_of::<Option<Address>>()
        } else if index == 30 {
            FieldLayout::spec_of::<Eager<Option<Ptr<MonoClassRuntimeInfo>>>>()
        } else if index == 31 {
            FieldLayout::spec_of::<Option<Address>>()
        } else if index == 32 {
            FieldLayout::spec_of::<Option<Address>>()
        } else if index == 33 {
            FieldLayout::spec_of::<Option<Address>>()
        } else if index == 34 {
            FieldLayout::spec_of::<u32>()
        } else if index == 35 {
            FieldLayout::spec_of::<u32>()
        } else if index == 36 {
            FieldLayout::spec_of::<u32>()
        } else if index == 37 {
            FieldLayout::spec_of::<u32>()
        } else if index == 38 {
            FieldLayout::spec_of::<u32>()
        } else {
            FieldLayout::spec_of::<Option<Address>>()
        }
    }

    /// The layouts of the fields, in declaration order.
    pub open spec fn fields() -> Seq<FieldLayout> {
        Seq::new(40, |index: int| Self::field_layout(index))
    }

    /// Where the fields before field `index` end, in a structure at `address`.
    pub open spec fn end_before(address: Address, index: int) -> int {
        end_after(address@, Self::fields(), index)
    }

    /// What the reading of field `index` did to arrive at that field of `value`.
    /// Kept out of sight of the prover until it is revealed.
    #[verifier::opaque]
    pub open spec fn field_read(address: Address, value: Self, index: int, events: Seq<ReadEvent>) -> bool {
        if index == 0 {
            field_step::<Option<Address>>(
                address,
                Self::end_before(address, 0),
                field_context_text("ClassInternals"@, "element_class"@),
                events,
                Ok(value.element_class),
            )
        } else if index == 1 {
            field_step::<Option<Address>>(
                address,
                Self::end_before(address, 1),
                field_context_text("ClassInternals"@, "cast_class"@),
                events,
                Ok(value.cast_class),
            )
        } else if index == 2 {
            field_step::<Option<Address>>(
                address,
                Self::end_before(address, 2),
                field_context_text("ClassInternals"@, "supertypes"@),
                events,
                Ok(value.supertypes),
            )
        } else if index == 3 {
            field_step::<u16>(
                address,
                Self::end_before(address, 3),
                field_context_text("ClassInternals"@, "idepth"@),
                events,
                Ok(value.idepth),
            )
        } else if index == 4 {
            field_step::<u8>(
                address,
                Self::end_before(address, 4),
                field_context_text("ClassInternals"@, "rank"@),
                events,
                Ok(value.rank),
            )
        } else if index == 5 {
            field_step::<i32>(
                address,
                Self::end_before(address, 5),
                field_context_text("ClassInternals"@, "instance_size"@),
                events,
                Ok(value.instance_size),
            )
        } else if index == 6 {
            field_step::<u8>(
                address,
                Self::end_before(address, 6),
                field_context_text("ClassInternals"@, "_bitfields_group_1"@),
                events,
                Ok(value._bitfields_group_1),
            )
        } else if index == 7 {
            field_step::<u8>(
                address,
                Self::end_before(address, 7),
                field_context_text("ClassInternals"@, "min_align"@),
                events,
                Ok(value.min_align),
            )
        } else if index == 8 {
            field_step::<[u8; 4]>(
                address,
                Self::end_before(address, 8),
                field_context_text("ClassInternals"@, "_bitfields_group_2"@),
                events,
                Ok(value._bitfields_group_2),
            )
        } else if index == 9 {
            field_step::<Option<Address>>(
                address,
                Self::end_before(address, 9),
                field_context_text("ClassInternals"@, "parent"@),
                events,
                Ok(value.parent),
            )
        } else if index == 10 {
            field_step::<Option<Address>>(
                address,
                Self::end_before(address, 10),
                field_context_text("ClassInternals"@, "nested_in"@),
                events,
                Ok(value.nested_in),
            )
        } else if index == 11 {
            field_step::<Option<Address>>(
                address,
                Self::end_before(address, 11),
                field_context_text("ClassInternals"@, "image"@),
                events,
                Ok(value.image),
            )
        } else if index == 12 {
            field_step::<String>(
                address,
                Self::end_before(address, 12),
                field_context_text("ClassInternals"@, "name"@),
                events,
                Ok(value.name),
            )
        } else if index == 13 {
            field_step::<String>(
                address,
                Self::end_before(address, 13),
                field_context_text("ClassInternals"@, "name_space"@),
                events,
                Ok(value.name_space),
            )
        } else if index == 14 {
            field_step::<u32>(
                address,
                Self::end_before(address, 14),
                field_context_text("ClassInternals"@, "type_token"@),
                events,
                Ok(value.type_token),
            )
        } else if index == 15 {
            field_step::<i32>(
                address,
                Self::end_before(address, 15),
                field_context_text("ClassInternals"@, "vtable_size"@),
                events,
                Ok(value.vtable_size),
            )
        } else if index == 16 {
            field_step::<u16>(
                address,
                Self::end_before(address, 16),
                field_context_text("ClassInternals"@, "interface_count"@),
                events,
                Ok(value.interface_count),
            )
        } else if index == 17 {
            field_step::<u32>(
                address,
                Self::end_before(address, 17),
                field_context_text("ClassInternals"@, "interface_id"@),
                events,
                Ok(value.interface_id),
            )
        } else if index == 18 {
            field_step::<u32>(
                address,
                Self::end_before(address, 18),
                field_context_text("ClassInternals"@, "max_interface_id"@),
                events,
                Ok(value.max_interface_id),
            )
        } else if index == 19 {
            field_step::<u16>(
                address,
                Self::end_before(address, 19),
                field_context_text("ClassInternals"@, "interface_offsets_count"@),
                events,
                Ok(value.interface_offsets_count),
            )
        } else if index == 20 {
            field_step::<Option<Address>>(
                address,
                Self::end_before(address, 20),
                field_context_text("ClassInternals"@, "interfaces_packed"@),
                events,
                Ok(value.interfaces_packed),
            )
        } else if index == 21 {
            field_step::<Option<Address>>(
                address,
                Self::end_before(address, 21),
                field_context_text("ClassInternals"@, "interface_offsets_packed"@),
                events,
                Ok(value.interface_offsets_packed),
            )
        } else if index == 22 {
            field_step::<Option<Address>>(
                address,
                Self::end_before(address, 22),
                field_context_text("ClassInternals"@, "interface_bitmap"@),
                events,
                Ok(value.interface_bitmap),
            )
        } else if index == 23 {
            field_step::<Option<Address>>(
                address,
                Self::end_before(address, 23),
                field_context_text("ClassInternals"@, "interfaces"@),
                events,
                Ok(value.interfaces),
            )
        } else if index == 24 {
            field_step::<i32>(
                address,
                Self::end_before(address, 24),
                field_context_text("ClassInternals"@, "sizes"@),
                events,
                Ok(value.sizes),
            )
        } else if index == 25 {
            field_step::<ArrayPtr<MonoClassField>>(
                address,
                Self::end_before(address, 25),
                field_context_text("ClassInternals"@, "fields"@),
                events,
                Ok(value.fields),
            )
        } else if index == 26 {
            field_step::<Option<Address>>(
                address,
                Self::end_before(address, 26),
                field_context_text("ClassInternals"@, "methods"@),
                events,
                Ok(value.methods),
            )
        } else if index == 27 {
            field_step::<MonoType>(
                address,
                Self::end_before(address, 27),
                field_context_text("ClassInternals"@, "this_arg"@),
                events,
                Ok(value.this_arg),
            )
        } else if index == 28 {
            field_step::<MonoType>(
                address,
                Self::end_before(address, 28),
                field_context_text("ClassInternals"@, "byval_arg"@),
                events,
                Ok(value.byval_arg),
            )
        } else if index == 29 {
            field_step::<Option<Address>>(
                address,
                Self::end_before(address, 29),
                field_context_text("ClassInternals"@, "gc_descr"@),
                events,
                Ok(value.gc_descr),
            )
        } else if index == 30 {
            field_step::<Eager<Option<Ptr<MonoClassRuntimeInfo>>>>(
                address,
                Self::end_before(address, 30),
                field_context_text("ClassInternals"@, "runtime_info"@),
                events,
                Ok(value.runtime_info),
            )
        } else if index == 31 {
            field_step::<Option<Address>>(
                address,
                Self::end_before(address, 31),
                field_context_text("ClassInternals"@, "vtable"@),
                events,
                Ok(value.vtable),
            )
        } else if index == 32 {
            field_step::<Option<Address>>(
                address,
                Self::end_before(address, 32),
                field_context_text("ClassInternals"@, "infrequent_data"@),
                events,
                Ok(value.infrequent_data),
            )
        } else if index == 33 {
            field_step::<Option<Address>>(
                address,
                Self::end_before(address, 33),
                field_context_text("ClassInternals"@, "unity_user_data"@),
                events,
                Ok(value.unity_user_data),
            )
        } else if index == 34 {
            field_step::<u32>(
                address,
                Self::end_before(address, 34),
                field_context_text("ClassInternals"@, "flags"@),
                events,
                Ok(value.flags),
            )
        } else if index == 35 {
            field_step::<u32>(
                address,
                Self::end_before(address, 35),
                field_context_text("ClassInternals"@, "first_method_idx"@),
                events,
                Ok(value.first_method_idx),
            )
        } else if index == 36 {
            field_step::<u32>(
                address,
                Self::end_before(address, 36),
                field_context_text("ClassInternals"@, "first_field_idx"@),
                events,
                Ok(value.first_field_idx),
            )
        } else if index == 37 {
            field_step::<u32>(
                address,
                Self::end_before(address, 37),
                field_context_text("ClassInternals"@, "method_count"@),
                events,
                Ok(value.method_count),
            )
        } else if index == 38 {
            field_step::<u32>(
                address,
                Self::end_before(address, 38),
                field_context_text("ClassInternals"@, "field_count"@),
                events,
                Ok(value.field_count),
            )
        } else {
            field_step::<Option<Address>>(
                address,
                Self::end_before(address, 39),
                field_context_text("ClassInternals"@, "next_class_cache"@),
                events,
                Ok(value.next_class_cache),
            )
        }
    }

    /// What the reading of field `index` did to fail with `error`. Kept out of
    /// sight of the prover until it is revealed.
    #[verifier::opaque]
    pub open spec fn field_fails(address: Address, index: int, events: Seq<ReadEvent>, error: Error) -> bool {
        if index == 0 {
            field_step::<Option<Address>>(
                address,
                Self::end_before(address, 0),
                field_context_text("ClassInternals"@, "element_class"@),
                events,
                Err(error),
            )
        } else if index == 1 {
            field_step::<Option<Address>>(
                address,
                Self::end_before(address, 1),
                field_context_text("ClassInternals"@, "cast_class"@),
                events,
                Err(error),
            )
        } else if index == 2 {
            field_step::<Option<Address>>(
                address,
                Self::end_before(address, 2),
                field_context_text("ClassInternals"@, "supertypes"@),
                events,
                Err(error),
            )
        } else if index == 3 {
            field_step::<u16>(
                address,
                Self::end_before(address, 3),
                field_context_text("ClassInternals"@, "idepth"@),
                events,
                Err(error),
            )
        } else if index == 4 {
            field_step::<u8>(
                address,
                Self::end_before(address, 4),
                field_context_text("ClassInternals"@, "rank"@),
                events,
                Err(error),
            )
        } else if index == 5 {
            field_step::<i32>(
                address,
                Self::end_before(address, 5),
                field_context_text("ClassInternals"@, "instance_size"@),
                events,
                Err(error),
            )
        } else if index == 6 {
            field_step::<u8>(
                address,
                Self::end_before(address, 6),
                field_context_text("ClassInternals"@, "_bitfields_group_1"@),
                events,
                Err(error),
            )
        } else if index == 7 {
            field_step::<u8>(
                address,
                Self::end_before(address, 7),
                field_context_text("ClassInternals"@, "min_align"@),
                events,
                Err(error),
            )
        } else if index == 8 {
            field_step::<[u8; 4]>(
                address,
                Self::end_before(address, 8),
                field_context_text("ClassInternals"@, "_bitfields_group_2"@),
                events,
                Err(error),
            )
        } else if index == 9 {
            field_step::<Option<Address>>(
                address,
                Self::end_before(address, 9),
                field_context_text("ClassInternals"@, "parent"@),
                events,
                Err(error),
            )
        } else if index == 10 {
            field_step::<Option<Address>>(
                address,
                Self::end_before(address, 10),
                field_context_text("ClassInternals"@, "nested_in"@),
                events,
                Err(error),
            )
        } else if index == 11 {
            field_step::<Option<Address>>(
                address,
                Self::end_before(address, 11),
                field_context_text("ClassInternals"@, "image"@),
                events,
                Err(error),
            )
        } else if index == 12 {
            field_step::<String>(
                address,
                Self::end_before(address, 12),
                field_context_text("ClassInternals"@, "name"@),
                events,
                Err(error),
            )
        } else if index == 13 {
            field_step::<String>(
                address,
                Self::end_before(address, 13),
                field_context_text("ClassInternals"@, "name_space"@),
                events,
                Err(error),
            )
        } else if index == 14 {
            field_step::<u32>(
                address,
                Self::end_before(address, 14),
                field_context_text("ClassInternals"@, "type_token"@),
                events,
                Err(error),
            )
        } else if index == 15 {
            field_step::<i32>(
                address,
                Self::end_before(address, 15),
                field_context_text("ClassInternals"@, "vtable_size"@),
                events,
                Err(error),
            )
        } else if index == 16 {
            field_step::<u16>(
                address,
                Self::end_before(address, 16),
                field_context_text("ClassInternals"@, "interface_count"@),
                events,
                Err(error),
            )
        } else if index == 17 {
            field_step::<u32>(
                address,
                Self::end_before(address, 17),
                field_context_text("ClassInternals"@, "interface_id"@),
                events,
                Err(error),
            )
        } else if index == 18 {
            field_step::<u32>(
                address,
                Self::end_before(address, 18),
                field_context_text("ClassInternals"@, "max_interface_id"@),
                events,
                Err(error),
            )
        } else if index == 19 {
            field_step::<u16>(
                address,
                Self::end_before(address, 19),
                field_context_text("ClassInternals"@, "interface_offsets_count"@),
                events,
                Err(error),
            )
        } else if index == 20 {
            field_step::<Option<Address>>(
                address,
                Self::end_before(address, 20),
                field_context_text("ClassInternals"@, "interfaces_packed"@),
                events,
                Err(error),
            )
        } else if index == 21 {
            field_step::<Option<Address>>(
                address,
                Self::end_before(address, 21),
                field_context_text("ClassInternals"@, "interface_offsets_packed"@),
                events,
                Err(error),
            )
        } else if index == 22 {
            field_step::<Option<Address>>(
                address,
                Self::end_before(address, 22),
                field_context_text("ClassInternals"@, "interface_bitmap"@),
                events,
                Err(error),
            )
        } else if index == 23 {
            field_step::<Option<Address>>(
                address,
                Self::end_before(address, 23),
                field_context_text("ClassInternals"@, "interfaces"@),
                events,
                Err(error),
            )
        } else if index == 24 {
            field_step::<i32>(
                address,
                Self::end_before(address, 24),
                field_context_text("ClassInternals"@, "sizes"@),
                events,
                Err(error),
            )
        } else if index == 25 {
            field_step::<ArrayPtr<MonoClassField>>(
                address,
                Self::end_before(address, 25),
                field_context_text("ClassInternals"@, "fields"@),
                events,
                Err(error),
            )
        } else if index == 26 {
            field_step::<Option<Address>>(
                address,
                Self::end_before(address, 26),
                field_context_text("ClassInternals"@, "methods"@),
                events,
                Err(error),
            )
        } else if index == 27 {
            field_step::<MonoType>(
                address,
                Self::end_before(address, 27),
                field_context_text("ClassInternals"@, "this_arg"@),
                events,
                Err(error),
            )
        } else if index == 28 {
            field_step::<MonoType>(
                address,
                Self::end_before(address, 28),
                field_context_text("ClassInternals"@, "byval_arg"@),
                events,
                Err(error),
            )
        } else if index == 29 {
            field_step::<Option<Address>>(
                address,
                Self::end_before(address, 29),
                field_context_text("ClassInternals"@, "gc_descr"@),
                events,
                Err(error),
            )
        } else if index == 30 {
            field_step::<Eager<Option<Ptr<MonoClassRuntimeInfo>>>>(
                address,
                Self::end_before(address, 30),
                field_context_text("ClassInternals"@, "runtime_info"@),
                events,
                Err(error),
            )
        } else if index == 31 {
            field_step::<Option<Address>>(
                address,
                Self::end_before(address, 31),
                field_context_text("ClassInternals"@, "vtable"@),
                events,
                Err(error),
            )
        } else if index == 32 {
            field_step::<Option<Address>>(
                address,
                Self::end_before(address, 32),
                field_context_text("ClassInternals"@, "infrequent_data"@),
                events,
                Err(error),
            )
        } else if index == 33 {
            field_step::<Option<Address>>(
                address,
                Self::end_before(address, 33),
                field_context_text("ClassInternals"@, "unity_user_data"@),
                events,
                Err(error),
            )
        } else if index == 34 {
            field_step::<u32>(
                address,
                Self::end_before(address, 34),
                field_context_text("ClassInternals"@, "flags"@),
                events,
                Err(error),
            )
        } else if index == 35 {
            field_step::<u32>(
                address,
                Self::end_before(address, 35),
                field_context_text("ClassInternals"@, "first_method_idx"@),
                events,
                Err(error),
            )
        } else if index == 36 {
            field_step::<u32>(
                address,
                Self::end_before(address, 36),
                field_context_text("ClassInternals"@, "first_field_idx"@),
                events,
                Err(error),
            )
        } else if index == 37 {
            field_step::<u32>(
                address,
                Self::end_before(address, 37),
                field_context_text("ClassInternals"@, "method_count"@),
                events,
                Err(error),
            )
        } else if index == 38 {
            field_step::<u32>(
                address,
                Self::end_before(address, 38),
                field_context_text("ClassInternals"@, "field_count"@),
                events,
                Err(error),
            )
        } else {
            field_step::<Option<Address>>(
                address,
                Self::end_before(address, 39),
                field_context_text("ClassInternals"@, "next_class_cache"@),
                events,
                Err(error),
            )
        }
    }

    /// What the reading of each field did, for the fields of `value`.
    pub open spec fn fields_read(address: Address, value: Self) -> spec_fn(int, Seq<ReadEvent>) -> bool {
        |index: int, events: Seq<ReadEvent>| Self::field_read(address, value, index, events)
    }

    /// The fields of `value` were read in declaration order, each at the end of
    /// the one before it rounded up to its own alignment, with exactly the
    /// requests in `events`.
    pub open spec fn reads_fields(address: Address, events: Seq<ReadEvent>, value: Self) -> bool {
        exists|cuts: Seq<int>| #[trigger]
            stretches(40, cuts, events, Self::fields_read(address, value)) && cuts.last() == events.len()
    }

    /// The reading ended with a field that could not be read: `error` is that
    /// field's error, wrapped in a context that names the field.
    pub open spec fn fails_at_field(address: Address, events: Seq<ReadEvent>, error: Error) -> bool {
        exists|index: int, cut: int|
            0 <= index < 40 && 0 <= cut <= events.len() && #[trigger] Self::field_fails(
                address,
                index,
                events.skip(cut),
                error,
            )
    }

    /// When a history grew through one state for each field, and what was added
    /// from each state to the next is the reading of that field of `value`, the
    /// whole of what was added is the reading of `value`.
    pub proof fn lemma_reads_fields(address: Address, value: Self, histories: Seq<Seq<ReadEvent>>)
        requires
            histories.len() == 41,
            forall|i: int|
                0 <= i < 40 ==> (#[trigger] histories[i]).is_prefix_of(histories[i + 1]) && Self::field_read(
                    address,
                    value,
                    i,
                    events_since(histories[i], histories[i + 1]),
                ),
        ensures
            Self::reads_fields(address, events_since(histories[0], histories[40]), value),
    {
        let step = Self::fields_read(address, value);
        assert forall|i: int| 0 <= i < 40 implies (#[trigger] histories[i]).is_prefix_of(histories[i + 1]) && step(
            i,
            events_since(histories[i], histories[i + 1]),
        ) by {
            assert(Self::field_read(address, value, i, events_since(histories[i], histories[i + 1])));
        }
        let cuts = lemma_stretches_chain(40, histories, step);
        assert(stretches(40, cuts, events_since(histories[0], histories[40]), Self::fields_read(address, value)));
    }

    /// The size and alignment of the structure are those of its fields laid
    /// out in declaration order.
    pub proof fn lemma_fields()
        ensures
            fields_aligned(Self::fields()),
            Self::fields().len() == 40,
    {
        <Option<Address>>::lemma_layout();
        <Option<Address>>::lemma_layout();
        <Option<Address>>::lemma_layout();
        <u16>::lemma_layout();
        <u8>::lemma_layout();
        <i32>::lemma_layout();
        <u8>::lemma_layout();
        <u8>::lemma_layout();
        <[u8; 4]>::lemma_layout();
        <Option<Address>>::lemma_layout();
        <Option<Address>>::lemma_layout();
        <Option<Address>>::lemma_layout();
        <String>::lemma_layout();
        <String>::lemma_layout();
        <u32>::lemma_layout();
        <i32>::lemma_layout();
        <u16>::lemma_layout();
        <u32>::lemma_layout();
        <u32>::lemma_layout();
        <u16>::lemma_layout();
        <Option<Address>>::lemma_layout();
        <Option<Address>>::lemma_layout();
        <Option<Address>>::lemma_layout();
        <Option<Address>>::lemma_layout();
        <i32>::lemma_layout();
        <ArrayPtr<MonoClassField>>::lemma_layout();
        <Option<Address>>::lemma_layout();
        <MonoType>::lemma_layout();
        <MonoType>::lemma_layout();
        <Option<Address>>::lemma_layout();
        <Eager<Option<Ptr<MonoClassRuntimeInfo>>>>::lemma_layout();
        <Option<Address>>::lemma_layout();
        <Option<Address>>::lemma_layout();
        <Option<Address>>::lemma_layout();
        <u32>::lemma_layout();
        <u32>::lemma_layout();
        <u32>::lemma_layout();
        <u32>::lemma_layout();
        <u32>::lemma_layout();
        <Option<Address>>::lemma_layout();
    }
}

impl ClassInternals {
    /// The size and the alignment of the structure are those of its fields laid
    /// out in declaration order.
    pub proof fn lemma_size()
        ensures
            <Self as Deserialize>::NUM_BYTES == struct_num_bytes(Self::fields()),
            <Self as Deserialize>::ALIGNMENT == struct_alignment(Self::fields()),
    {
        Self::lemma_fields();
        lemma_small_powers_of_two();
        <ArrayPtr<MonoClassField>>::lemma_layout();
        <Eager<Option<Ptr<MonoClassRuntimeInfo>>>>::lemma_layout();
        <MonoType>::lemma_layout();
        <Option<Address>>::lemma_layout();
        <String>::lemma_layout();
        <[u8; 4]>::lemma_layout();
        <i32>::lemma_layout();
        <u16>::lemma_layout();
        <u32>::lemma_layout();
        <u8>::lemma_layout();
        assert(end_after(0, Self::fields(), 0) == 0);
        assert(alignment_among(Self::fields(), 0) == 1);
        assert(Self::fields()[0] == FieldLayout { num_bytes: 8, alignment: 8 });
        assert(end_after(0, Self::fields(), 1) == 8);
        assert(Self::fields()[1] == FieldLayout { num_bytes: 8, alignment: 8 });
        assert(end_after(0, Self::fields(), 2) == 16);
        assert(Self::fields()[2] == FieldLayout { num_bytes: 8, alignment: 8 });
        assert(end_after(0, Self::fields(), 3) == 24);
        assert(Self::fields()[3] == FieldLayout { num_bytes: 2, alignment: 2 });
        assert(end_after(0, Self::fields(), 4) == 26);
        assert(Self::fields()[4] == FieldLayout { num_bytes: 1, alignment: 1 });
        assert(end_after(0, Self::fields(), 5) == 27);
        assert(Self::fields()[5] == FieldLayout { num_bytes: 4, alignment: 4 });
        assert(end_after(0, Self::fields(), 6) == 32);
        assert(Self::fields()[6] == FieldLayout { num_bytes: 1, alignment: 1 });
        assert(end_after(0, Self::fields(), 7) == 33);
        assert(Self::fields()[7] == FieldLayout { num_bytes: 1, alignment: 1 });
        assert(end_after(0, Self::fields(), 8) == 34);
        assert(Self::fields()[8] == FieldLayout { num_bytes: 4, alignment: 1 });
        assert(end_after(0, Self::fields(), 9) == 38);
        assert(Self::fields()[9] == FieldLayout { num_bytes: 8, alignment: 8 });
        assert(end_after(0, Self::fields(), 10) == 48);
        assert(Self::fields()[10] == FieldLayout { num_bytes: 8, alignment: 8 });
        assert(end_after(0, Self::fields(), 11) == 56);
        assert(Self::fields()[11] == FieldLayout { num_bytes: 8, alignment: 8 });
        assert(end_after(0, Self::fields(), 12) == 64);
        assert(Self::fields()[12] == FieldLayout { num_bytes: 8, alignment: 8 });
        assert(end_after(0, Self::fields(), 13) == 72);
        assert(Self::fields()[13] == FieldLayout { num_bytes: 8, alignment: 8 });
        assert(end_after(0, Self::fields(), 14) == 80);
        assert(Self::fields()[14] == FieldLayout { num_bytes: 4, alignment: 4 });
        assert(end_after(0, Self::fields(), 15) == 84);
        assert(Self::fields()[15] == FieldLayout { num_bytes: 4, alignment: 4 });
        assert(end_after(0, Self::fields(), 16) == 88);
        assert(Self::fields()[16] == FieldLayout { num_bytes: 2, alignment: 2 });
        assert(end_after(0, Self::fields(), 17) == 90);
        assert(Self::fields()[17] == FieldLayout { num_bytes: 4, alignment: 4 });
        assert(end_after(0, Self::fields(), 18) == 96);
        assert(Self::fields()[18] == FieldLayout { num_bytes: 4, alignment: 4 });
        assert(end_after(0, Self::fields(), 19) == 100);
        assert(Self::fields()[19] == FieldLayout { num_bytes: 2, alignment: 2 });
        assert(end_after(0, Self::fields(), 20) == 102);
        assert(Self::fields()[20] == FieldLayout { num_bytes: 8, alignment: 8 });
        assert(end_after(0, Self::fields(), 21) == 112);
        assert(Self::fields()[21] == FieldLayout { num_bytes: 8, alignment: 8 });
        assert(end_after(0, Self::fields(), 22) == 120);
        assert(Self::fields()[22] == FieldLayout { num_bytes: 8, alignment: 8 });
        assert(end_after(0, Self::fields(), 23) == 128);
        assert(Self::fields()[23] == FieldLayout { num_bytes: 8, alignment: 8 });
        assert(end_after(0, Self::fields(), 24) == 136);
        assert(Self::fields()[24] == FieldLayout { num_bytes: 4, alignment: 4 });
        assert(end_after(0, Self::fields(), 25) == 140);
        assert(Self::fields()[25] == FieldLayout { num_bytes: 8, alignment: 8 });
        assert(end_after(0, Self::fields(), 26) == 152);
        assert(Self::fields()[26] == FieldLayout { num_bytes: 8, alignment: 8 });
        assert(end_after(0, Self::fields(), 27) == 160);
        assert(Self::fields()[27] == FieldLayout { num_bytes: 12, alignment: 8 });
        assert(end_after(0, Self::fields(), 28) == 172);
        assert(Self::fields()[28] == FieldLayout { num_bytes: 12, alignment: 8 });
        assert(end_after(0, Self::fields(), 29) == 188);
        assert(Self::fields()[29] == FieldLayout { num_bytes: 8, alignment: 8 });
        assert(end_after(0, Self::fields(), 30) == 200);
        assert(Self::fields()[30] == FieldLayout { num_bytes: 8, alignment: 8 });
        assert(end_after(0, Self::fields(), 31) == 208);
        assert(Self::fields()[31] == FieldLayout { num_bytes: 8, alignment: 8 });
        assert(end_after(0, Self::fields(), 32) == 216);
        assert(Self::fields()[32] == FieldLayout { num_bytes: 8, alignment: 8 });
        assert(end_after(0, Self::fields(), 33) == 224);
        assert(Self::fields()[33] == FieldLayout { num_bytes: 8, alignment: 8 });
        assert(end_after(0, Self::fields(), 34) == 232);
        assert(Self::fields()[34] == FieldLayout { num_bytes: 4, alignment: 4 });
        assert(end_after(0, Self::fields(), 35) == 236);
        assert(Self::fields()[35] == FieldLayout { num_bytes: 4, alignment: 4 });
        assert(end_after(0, Self::fields(), 36) == 240);
        assert(Self::fields()[36] == FieldLayout { num_bytes: 4, alignment: 4 });
        assert(end_after(0, Self::fields(), 37) == 244);
        assert(Self::fields()[37] == FieldLayout { num_bytes: 4, alignment: 4 });
        assert(end_after(0, Self::fields(), 38) == 248);
        assert(Self::fields()[38] == FieldLayout { num_bytes: 4, alignment: 4 });
        assert(end_after(0, Self::fields(), 39) == 252);
        assert(Self::fields()[39] == FieldLayout { num_bytes: 8, alignment: 8 });
        assert(end_after(0, Self::fields(), 40) == 264);
        assert(alignment_among(Self::fields(), 1) == 8);
        assert(alignment_among(Self::fields(), 2) == 8);
        assert(alignment_among(Self::fields(), 3) == 8);
        assert(alignment_among(Self::fields(), 4) == 8);
        assert(alignment_among(Self::fields(), 5) == 8);
        assert(alignment_among(Self::fields(), 6) == 8);
        assert(alignment_among(Self::fields(), 7) == 8);
        assert(alignment_among(Self::fields(), 8) == 8);
        assert(alignment_among(Self::fields(), 9) == 8);
        assert(alignment_among(Self::fields(), 10) == 8);
        assert(alignment_among(Self::fields(), 11) == 8);
        assert(alignment_among(Self::fields(), 12) == 8);
        assert(alignment_among(Self::fields(), 13) == 8);
        assert(alignment_among(Self::fields(), 14) == 8);
        assert(alignment_among(Self::fields(), 15) == 8);
        assert(alignment_among(Self::fields(), 16) == 8);
        assert(alignment_among(Self::fields(), 17) == 8);
        assert(alignment_among(Self::fields(), 18) == 8);
        assert(alignment_among(Self::fields(), 19) == 8);
        assert(alignment_among(Self::fields(), 20) == 8);
        assert(alignment_among(Self::fields(), 21) == 8);
        assert(alignment_among(Self::fields(), 22) == 8);
        assert(alignment_among(Self::fields(), 23) == 8);
        assert(alignment_among(Self::fields(), 24) == 8);
        assert(alignment_among(Self::fields(), 25) == 8);
        assert(alignment_among(Self::fields(), 26) == 8);
        assert(alignment_among(Self::fields(), 27) == 8);
        assert(alignment_among(Self::fields(), 28) == 8);
        assert(alignment_among(Self::fields(), 29) == 8);
        assert(alignment_among(Self::fields(), 30) == 8);
        assert(alignment_among(Self::fields(), 31) == 8);
        assert(alignment_among(Self::fields(), 32) == 8);
        assert(alignment_among(Self::fields(), 33) == 8);
        assert(alignment_among(Self::fields(), 34) == 8);
        assert(alignment_among(Self::fields(), 35) == 8);
        assert(alignment_among(Self::fields(), 36) == 8);
        assert(alignment_among(Self::fields(), 37) == 8);
        assert(alignment_among(Self::fields(), 38) == 8);
        assert(alignment_among(Self::fields(), 39) == 8);
        assert(alignment_among(Self::fields(), 40) == 8);
    }
}

/// The fields 0 to 9 of a structure, as they come out of memory.
struct ClassInternalsPart0 {
    field0: Option<Address>,
    field1: Option<Address>,
    field2: Option<Address>,
    field3: u16,
    field4: u8,
    field5: i32,
    field6: u8,
    field7: u8,
    field8: [u8; 4],
    field9: Option<Address>,
}

/// The fields 10 to 19 of a structure, as they come out of memory.
struct ClassInternalsPart1 {
    field10: Option<Address>,
    field11: Option<Address>,
    field12: String,
    field13: String,
    field14: u32,
    field15: i32,
    field16: u16,
    field17: u32,
    field18: u32,
    field19: u16,
}

/// The fields 20 to 29 of a structure, as they come out of memory.
struct ClassInternalsPart2 {
    field20: Option<Address>,
    field21: Option<Address>,
    field22: Option<Address>,
    field23: Option<Address>,
    field24: i32,
    field25: ArrayPtr<MonoClassField>,
    field26: Option<Address>,
    field27: MonoType,
    field28: MonoType,
    field29: Option<Address>,
}

/// The fields 30 to 39 of a structure, as they come out of memory.
struct ClassInternalsPart3 {
    field30: Eager<Option<Ptr<MonoClassRuntimeInfo>>>,
    field31: Option<Address>,
    field32: Option<Address>,
    field33: Option<Address>,
    field34: u32,
    field35: u32,
    field36: u32,
    field37: u32,
    field38: u32,
    field39: Option<Address>,
}

impl ClassInternals {
    /// What the reading of field `index` did to arrive at that field of `part`.
    #[verifier::opaque]
    spec fn part0_read(address: Address, part: ClassInternalsPart0, index: int, events: Seq<ReadEvent>) -> bool {
        if index == 0 {
            field_step::<Option<Address>>(
                address,
                Self::end_before(address, 0),
                field_context_text("ClassInternals"@, "element_class"@),
                events,
                Ok(part.field0),
            )
        } else if index == 1 {
            field_step::<Option<Address>>(
                address,
                Self::end_before(address, 1),
                field_context_text("ClassInternals"@, "cast_class"@),
                events,
                Ok(part.field1),
            )
        } else if index == 2 {
            field_step::<Option<Address>>(
                address,
                Self::end_before(address, 2),
                field_context_text("ClassInternals"@, "supertypes"@),
                events,
                Ok(part.field2),
            )
        } else if index == 3 {
            field_step::<u16>(
                address,
                Self::end_before(address, 3),
                field_context_text("ClassInternals"@, "idepth"@),
                events,
                Ok(part.field3),
            )
        } else if index == 4 {
            field_step::<u8>(
                address,
                Self::end_before(address, 4),
                field_context_text("ClassInternals"@, "rank"@),
                events,
                Ok(part.field4),
            )
        } else if index == 5 {
            field_step::<i32>(
                address,
                Self::end_before(address, 5),
                field_context_text("ClassInternals"@, "instance_size"@),
                events,
                Ok(part.field5),
            )
        } else if index == 6 {
            field_step::<u8>(
                address,
                Self::end_before(address, 6),
                field_context_text("ClassInternals"@, "_bitfields_group_1"@),
                events,
                Ok(part.field6),
            )
        } else if index == 7 {
            field_step::<u8>(
                address,
                Self::end_before(address, 7),
                field_context_text("ClassInternals"@, "min_align"@),
                events,
                Ok(part.field7),
            )
        } else if index == 8 {
            field_step::<[u8; 4]>(
                address,
                Self::end_before(address, 8),
                field_context_text("ClassInternals"@, "_bitfields_group_2"@),
                events,
                Ok(part.field8),
            )
        } else {
            field_step::<Option<Address>>(
                address,
                Self::end_before(address, 9),
                field_context_text("ClassInternals"@, "parent"@),
                events,
                Ok(part.field9),
            )
        }
    }

    /// Reads the fields 0 to 9, in declaration order, from where
    /// `cursor` stands.
    fn read_part0<M: MemoryReader>(reader: &mut M, cursor: &mut FieldCursor, Ghost(address): Ghost<Address>) -> (r: Result<
        (ClassInternalsPart0, Ghost<Seq<Seq<ReadEvent>>>),
        Error,
    >)
        requires
            old(cursor).origin() == address,
            old(cursor).end() == Self::end_before(address, 0),
        ensures
            old(reader).history().is_prefix_of(final(reader).history()),
            final(cursor).origin() == address,
            match r {
                Ok((part, histories)) => {
                    &&& final(cursor).end() == Self::end_before(address, 10)
                    &&& histories@.len() == 11
                    &&& histories@[0] == old(reader).history()
                    &&& histories@[10] == final(reader).history()
                    &&& forall|i: int|
                        0 <= i < 10 ==> (#[trigger] histories@[i]).is_prefix_of(histories@[i + 1])
                            && Self::part0_read(
                            address,
                            part,
                            0 + i,
                            events_since(histories@[i], histories@[i + 1]),
                        )
                },
                Err(error) => Self::fails_at_field(
                    address,
                    events_since(old(reader).history(), final(reader).history()),
                    error,
                ),
            },
    {
        let ghost h0 = reader.history();
        let ghost g0 = h0;
        proof {
            Self::lemma_fields();
            lemma_no_events(h0);
            assert(Self::end_before(address, 0) == address@);
        }
        let field0 = match cursor.field::<Option<Address>, M>(reader, "ClassInternals", "element_class") {
            Ok(value) => value,
            Err(error) => {
                proof {
                    lemma_events_chain(h0, g0, reader.history());
                    let cut = events_since(h0, g0).len() as int;
                    assert(Self::field_fails(address, 0, events_since(h0, reader.history()).skip(cut), error)) by {
                        reveal(ClassInternals::field_fails);
                    }
                    assert(Self::fails_at_field(address, events_since(h0, reader.history()), error));
                }
                return Err(error);
            },
        };
        let ghost g1 = reader.history();
        proof {
            lemma_prefix_trans(h0, g0, g1);
            assert(cursor.end() == Self::end_before(address, 1));
        }
        let field1 = match cursor.field::<Option<Address>, M>(reader, "ClassInternals", "cast_class") {
            Ok(value) => value,
            Err(error) => {
                proof {
                    lemma_events_chain(h0, g1, reader.history());
                    let cut = events_since(h0, g1).len() as int;
                    assert(Self::field_fails(address, 1, events_since(h0, reader.history()).skip(cut), error)) by {
                        reveal(ClassInternals::field_fails);
                    }
                    assert(Self::fails_at_field(address, events_since(h0, reader.history()), error));
                }
                return Err(error);
            },
        };
        let ghost g2 = reader.history();
        proof {
            lemma_prefix_trans(h0, g1, g2);
            assert(cursor.end() == Self::end_before(address, 2));
        }
        let field2 = match cursor.field::<Option<Address>, M>(reader, "ClassInternals", "supertypes") {
            Ok(value) => value,
            Err(error) => {
                proof {
                    lemma_events_chain(h0, g2, reader.history());
                    let cut = events_since(h0, g2).len() as int;
                    assert(Self::field_fails(address, 2, events_since(h0, reader.history()).skip(cut), error)) by {
                        reveal(ClassInternals::field_fails);
                    }
                    assert(Self::fails_at_field(address, events_since(h0, reader.history()), error));
                }
                return Err(error);
            },
        };
        let ghost g3 = reader.history();
        proof {
            lemma_prefix_trans(h0, g2, g3);
            assert(cursor.end() == Self::end_before(address, 3));
        }
        let field3 = match cursor.field::<u16, M>(reader, "ClassInternals", "idepth") {
            Ok(value) => value,
            Err(error) => {
                proof {
                    lemma_events_chain(h0, g3, reader.history());
                    let cut = events_since(h0, g3).len() as int;
                    assert(Self::field_fails(address, 3, events_since(h0, reader.history()).skip(cut), error)) by {
                        reveal(ClassInternals::field_fails);
                    }
                    assert(Self::fails_at_field(address, events_since(h0, reader.history()), error));
                }
                return Err(error);
            },
        };
        let ghost g4 = reader.history();
        proof {
            lemma_prefix_trans(h0, g3, g4);
            assert(cursor.end() == Self::end_before(address, 4));
        }
        let field4 = match cursor.field::<u8, M>(reader, "ClassInternals", "rank") {
            Ok(value) => value,
            Err(error) => {
                proof {
                    lemma_events_chain(h0, g4, reader.history());
                    let cut = events_since(h0, g4).len() as int;
                    assert(Self::field_fails(address, 4, events_since(h0, reader.history()).skip(cut), error)) by {
                        reveal(ClassInternals::field_fails);
                    }
                    assert(Self::fails_at_field(address, events_since(h0, reader.history()), error));
                }
                return Err(error);
            },
        };
        let ghost g5 = reader.history();
        proof {
            lemma_prefix_trans(h0, g4, g5);
            assert(cursor.end() == Self::end_before(address, 5));
        }
        let field5 = match cursor.field::<i32, M>(reader, "ClassInternals", "instance_size") {
            Ok(value) => value,
            Err(error) => {
                proof {
                    lemma_events_chain(h0, g5, reader.history());
                    let cut = events_since(h0, g5).len() as int;
                    assert(Self::field_fails(address, 5, events_since(h0, reader.history()).skip(cut), error)) by {
                        reveal(ClassInternals::field_fails);
                    }
                    assert(Self::fails_at_field(address, events_since(h0, reader.history()), error));
                }
                return Err(error);
            },
        };
        let ghost g6 = reader.history();
        proof {
            lemma_prefix_trans(h0, g5, g6);
            assert(cursor.end() == Self::end_before(address, 6));
        }
        let field6 = match cursor.field::<u8, M>(reader, "ClassInternals", "_bitfields_group_1") {
            Ok(value) => value,
            Err(error) => {
                proof {
                    lemma_events_chain(h0, g6, reader.history());
                    let cut = events_since(h0, g6).len() as int;
                    assert(Self::field_fails(address, 6, events_since(h0, reader.history()).skip(cut), error)) by {
                        reveal(ClassInternals::field_fails);
                    }
                    assert(Self::fails_at_field(address, events_since(h0, reader.history()), error));
                }
                return Err(error);
            },
        };
        let ghost g7 = reader.history();
        proof {
            lemma_prefix_trans(h0, g6, g7);
            assert(cursor.end() == Self::end_before(address, 7));
        }
        let field7 = match cursor.field::<u8, M>(reader, "ClassInternals", "min_align") {
            Ok(value) => value,
            Err(error) => {
                proof {
                    lemma_events_chain(h0, g7, reader.history());
                    let cut = events_since(h0, g7).len() as int;
                    assert(Self::field_fails(address, 7, events_since(h0, reader.history()).skip(cut), error)) by {
                        reveal(ClassInternals::field_fails);
                    }
                    assert(Self::fails_at_field(address, events_since(h0, reader.history()), error));
                }
                return Err(error);
            },
        };
        let ghost g8 = reader.history();
        proof {
            lemma_prefix_trans(h0, g7, g8);
            assert(cursor.end() == Self::end_before(address, 8));
        }
        let field8 = match cursor.field::<[u8; 4], M>(reader, "ClassInternals", "_bitfields_group_2") {
            Ok(value) => value,
            Err(error) => {
                proof {
                    lemma_events_chain(h0, g8, reader.history());
                    let cut = events_since(h0, g8).len() as int;
                    assert(Self::field_fails(address, 8, events_since(h0, reader.history()).skip(cut), error)) by {
                        reveal(ClassInternals::field_fails);
                    }
                    assert(Self::fails_at_field(address, events_since(h0, reader.history()), error));
                }
                return Err(error);
            },
        };
        let ghost g9 = reader.history();
        proof {
            lemma_prefix_trans(h0, g8, g9);
            assert(cursor.end() == Self::end_before(address, 9));
        }
        let field9 = match cursor.field::<Option<Address>, M>(reader, "ClassInternals", "parent") {
            Ok(value) => value,
            Err(error) => {
                proof {
                    lemma_events_chain(h0, g9, reader.history());
                    let cut = events_since(h0, g9).len() as int;
                    assert(Self::field_fails(address, 9, events_since(h0, reader.history()).skip(cut), error)) by {
                        reveal(ClassInternals::field_fails);
                    }
                    assert(Self::fails_at_field(address, events_since(h0, reader.history()), error));
                }
                return Err(error);
            },
        };
        let ghost g10 = reader.history();
        proof {
            lemma_prefix_trans(h0, g9, g10);
            assert(cursor.end() == Self::end_before(address, 10));
        }
        let part = ClassInternalsPart0 { field0, field1, field2, field3, field4, field5, field6, field7, field8, field9 };
        let ghost histories = Seq::new(11, |i: int|
            if i == 0 {
                g0
            } else if i == 1 {
                g1
            } else if i == 2 {
                g2
            } else if i == 3 {
                g3
            } else if i == 4 {
                g4
            } else if i == 5 {
                g5
            } else if i == 6 {
                g6
            } else if i == 7 {
                g7
            } else if i == 8 {
                g8
            } else if i == 9 {
                g9
            } else {
                g10
            });
        proof {
            assert forall|i: int| 0 <= i < 10 implies (#[trigger] histories[i]).is_prefix_of(histories[i + 1])
                && Self::part0_read(address, part, 0 + i, events_since(histories[i], histories[i + 1])) by {
                if i == 0 {
                    assert(Self::part0_read(address, part, 0, events_since(g0, g1))) by {
                        reveal(ClassInternals::part0_read);
                    }
                } else if i == 1 {
                    assert(Self::part0_read(address, part, 1, events_since(g1, g2))) by {
                        reveal(ClassInternals::part0_read);
                    }
                } else if i == 2 {
                    assert(Self::part0_read(address, part, 2, events_since(g2, g3))) by {
                        reveal(ClassInternals::part0_read);
                    }
                } else if i == 3 {
                    assert(Self::part0_read(address, part, 3, events_since(g3, g4))) by {
                        reveal(ClassInternals::part0_read);
                    }
                } else if i == 4 {
                    assert(Self::part0_read(address, part, 4, events_since(g4, g5))) by {
                        reveal(ClassInternals::part0_read);
                    }
                } else if i == 5 {
                    assert(Self::part0_read(address, part, 5, events_since(g5, g6))) by {
                        reveal(ClassInternals::part0_read);
                    }
                } else if i == 6 {
                    assert(Self::part0_read(address, part, 6, events_since(g6, g7))) by {
                        reveal(ClassInternals::part0_read);
                    }
                } else if i == 7 {
                    assert(Self::part0_read(address, part, 7, events_since(g7, g8))) by {
                        reveal(ClassInternals::part0_read);
                    }
                } else if i == 8 {
                    assert(Self::part0_read(address, part, 8, events_since(g8, g9))) by {
                        reveal(ClassInternals::part0_read);
                    }
                } else if i == 9 {
                    assert(Self::part0_read(address, part, 9, events_since(g9, g10))) by {
                        reveal(ClassInternals::part0_read);
                    }
                }
            }
        }
        Ok((part, Ghost(histories)))
    }

    /// What the reading of field `index` did to arrive at that field of `part`.
    #[verifier::opaque]
    spec fn part1_read(address: Address, part: ClassInternalsPart1, index: int, events: Seq<ReadEvent>) -> bool {
        if index == 10 {
            field_step::<Option<Address>>(
                address,
                Self::end_before(address, 10),
                field_context_text("ClassInternals"@, "nested_in"@),
                events,
                Ok(part.field10),
            )
        } else if index == 11 {
            field_step::<Option<Address>>(
                address,
                Self::end_before(address, 11),
                field_context_text("ClassInternals"@, "image"@),
                events,
                Ok(part.field11),
            )
        } else if index == 12 {
            field_step::<String>(
                address,
                Self::end_before(address, 12),
                field_context_text("ClassInternals"@, "name"@),
                events,
                Ok(part.field12),
            )
        } else if index == 13 {
            field_step::<String>(
                address,
                Self::end_before(address, 13),
                field_context_text("ClassInternals"@, "name_space"@),
                events,
                Ok(part.field13),
            )
        } else if index == 14 {
            field_step::<u32>(
                address,
                Self::end_before(address, 14),
                field_context_text("ClassInternals"@, "type_token"@),
                events,
                Ok(part.field14),
            )
        } else if index == 15 {
            field_step::<i32>(
                address,
                Self::end_before(address, 15),
                field_context_text("ClassInternals"@, "vtable_size"@),
                events,
                Ok(part.field15),
            )
        } else if index == 16 {
            field_step::<u16>(
                address,
                Self::end_before(address, 16),
                field_context_text("ClassInternals"@, "interface_count"@),
                events,
                Ok(part.field16),
            )
        } else if index == 17 {
            field_step::<u32>(
                address,
                Self::end_before(address, 17),
                field_context_text("ClassInternals"@, "interface_id"@),
                events,
                Ok(part.field17),
            )
        } else if index == 18 {
            field_step::<u32>(
                address,
                Self::end_before(address, 18),
                field_context_text("ClassInternals"@, "max_interface_id"@),
                events,
                Ok(part.field18),
            )
        } else {
            field_step::<u16>(
                address,
                Self::end_before(address, 19),
                field_context_text("ClassInternals"@, "interface_offsets_count"@),
                events,
                Ok(part.field19),
            )
        }
    }

    /// Reads the fields 10 to 19, in declaration order, from where
    /// `cursor` stands.
    fn read_part1<M: MemoryReader>(reader: &mut M, cursor: &mut FieldCursor, Ghost(address): Ghost<Address>) -> (r: Result<
        (ClassInternalsPart1, Ghost<Seq<Seq<ReadEvent>>>),
        Error,
    >)
        requires
            old(cursor).origin() == address,
            old(cursor).end() == Self::end_before(address, 10),
        ensures
            old(reader).history().is_prefix_of(final(reader).history()),
            final(cursor).origin() == address,
            match r {
                Ok((part, histories)) => {
                    &&& final(cursor).end() == Self::end_before(address, 20)
                    &&& histories@.len() == 11
                    &&& histories@[0] == old(reader).history()
                    &&& histories@[10] == final(reader).history()
                    &&& forall|i: int|
                        0 <= i < 10 ==> (#[trigger] histories@[i]).is_prefix_of(histories@[i + 1])
                            && Self::part1_read(
                            address,
                            part,
                            10 + i,
                            events_since(histories@[i], histories@[i + 1]),
                        )
                },
                Err(error) => Self::fails_at_field(
                    address,
                    events_since(old(reader).history(), final(reader).history()),
                    error,
                ),
            },
    {
        let ghost h0 = reader.history();
        let ghost g10 = h0;
        proof {
            Self::lemma_fields();
            lemma_no_events(h0);
            assert(Self::end_before(address, 0) == address@);
        }
        let field10 = match cursor.field::<Option<Address>, M>(reader, "ClassInternals", "nested_in") {
            Ok(value) => value,
            Err(error) => {
                proof {
                    lemma_events_chain(h0, g10, reader.history());
                    let cut = events_since(h0, g10).len() as int;
                    assert(Self::field_fails(address, 10, events_since(h0, reader.history()).skip(cut), error)) by {
                        reveal(ClassInternals::field_fails);
                    }
                    assert(Self::fails_at_field(address, events_since(h0, reader.history()), error));
                }
                return Err(error);
            },
        };
        let ghost g11 = reader.history();
        proof {
            lemma_prefix_trans(h0, g10, g11);
            assert(cursor.end() == Self::end_before(address, 11));
        }
        let field11 = match cursor.field::<Option<Address>, M>(reader, "ClassInternals", "image") {
            Ok(value) => value,
            Err(error) => {
                proof {
                    lemma_events_chain(h0, g11, reader.history());
                    let cut = events_since(h0, g11).len() as int;
                    assert(Self::field_fails(address, 11, events_since(h0, reader.history()).skip(cut), error)) by {
                        reveal(ClassInternals::field_fails);
                    }
                    assert(Self::fails_at_field(address, events_since(h0, reader.history()), error));
                }
                return Err(error);
            },
        };
        let ghost g12 = reader.history();
        proof {
            lemma_prefix_trans(h0, g11, g12);
            assert(cursor.end() == Self::end_before(address, 12));
        }
        let field12 = match cursor.field::<String, M>(reader, "ClassInternals", "name") {
            Ok(value) => value,
            Err(error) => {
                proof {
                    lemma_events_chain(h0, g12, reader.history());
                    let cut = events_since(h0, g12).len() as int;
                    assert(Self::field_fails(address, 12, events_since(h0, reader.history()).skip(cut), error)) by {
                        reveal(ClassInternals::field_fails);
                    }
                    assert(Self::fails_at_field(address, events_since(h0, reader.history()), error));
                }
                return Err(error);
            },
        };
        let ghost g13 = reader.history();
        proof {
            lemma_prefix_trans(h0, g12, g13);
            assert(cursor.end() == Self::end_before(address, 13));
        }
        let field13 = match cursor.field::<String, M>(reader, "ClassInternals", "name_space") {
            Ok(value) => value,
            Err(error) => {
                proof {
                    lemma_events_chain(h0, g13, reader.history());
                    let cut = events_since(h0, g13).len() as int;
                    assert(Self::field_fails(address, 13, events_since(h0, reader.history()).skip(cut), error)) by {
                        reveal(ClassInternals::field_fails);
                    }
                    assert(Self::fails_at_field(address, events_since(h0, reader.history()), error));
                }
                return Err(error);
            },
        };
        let ghost g14 = reader.history();
        proof {
            lemma_prefix_trans(h0, g13, g14);
            assert(cursor.end() == Self::end_before(address, 14));
        }
        let field14 = match cursor.field::<u32, M>(reader, "ClassInternals", "type_token") {
            Ok(value) => value,
            Err(error) => {
                proof {
                    lemma_events_chain(h0, g14, reader.history());
                    let cut = events_since(h0, g14).len() as int;
                    assert(Self::field_fails(address, 14, events_since(h0, reader.history()).skip(cut), error)) by {
                        reveal(ClassInternals::field_fails);
                    }
                    assert(Self::fails_at_field(address, events_since(h0, reader.history()), error));
                }
                return Err(error);
            },
        };
        let ghost g15 = reader.history();
        proof {
            lemma_prefix_trans(h0, g14, g15);
            assert(cursor.end() == Self::end_before(address, 15));
        }
        let field15 = match cursor.field::<i32, M>(reader, "ClassInternals", "vtable_size") {
            Ok(value) => value,
            Err(error) => {
                proof {
                    lemma_events_chain(h0, g15, reader.history());
                    let cut = events_since(h0, g15).len() as int;
                    assert(Self::field_fails(address, 15, events_since(h0, reader.history()).skip(cut), error)) by {
                        reveal(ClassInternals::field_fails);
                    }
                    assert(Self::fails_at_field(address, events_since(h0, reader.history()), error));
                }
                return Err(error);
            },
        };
        let ghost g16 = reader.history();
        proof {
            lemma_prefix_trans(h0, g15, g16);
            assert(cursor.end() == Self::end_before(address, 16));
        }
        let field16 = match cursor.field::<u16, M>(reader, "ClassInternals", "interface_count") {
            Ok(value) => value,
            Err(error) => {
                proof {
                    lemma_events_chain(h0, g16, reader.history());
                    let cut = events_since(h0, g16).len() as int;
                    assert(Self::field_fails(address, 16, events_since(h0, reader.history()).skip(cut), error)) by {
                        reveal(ClassInternals::field_fails);
                    }
                    assert(Self::fails_at_field(address, events_since(h0, reader.history()), error));
                }
                return Err(error);
            },
        };
        let ghost g17 = reader.history();
        proof {
            lemma_prefix_trans(h0, g16, g17);
            assert(cursor.end() == Self::end_before(address, 17));
        }
        let field17 = match cursor.field::<u32, M>(reader, "ClassInternals", "interface_id") {
            Ok(value) => value,
            Err(error) => {
                proof {
                    lemma_events_chain(h0, g17, reader.history());
                    let cut = events_since(h0, g17).len() as int;
                    assert(Self::field_fails(address, 17, events_since(h0, reader.history()).skip(cut), error)) by {
                        reveal(ClassInternals::field_fails);
                    }
                    assert(Self::fails_at_field(address, events_since(h0, reader.history()), error));
                }
                return Err(error);
            },
        };
        let ghost g18 = reader.history();
        proof {
            lemma_prefix_trans(h0, g17, g18);
            assert(cursor.end() == Self::end_before(address, 18));
        }
        let field18 = match cursor.field::<u32, M>(reader, "ClassInternals", "max_interface_id") {
            Ok(value) => value,
            Err(error) => {
                proof {
                    lemma_events_chain(h0, g18, reader.history());
                    let cut = events_since(h0, g18).len() as int;
                    assert(Self::field_fails(address, 18, events_since(h0, reader.history()).skip(cut), error)) by {
                        reveal(ClassInternals::field_fails);
                    }
                    assert(Self::fails_at_field(address, events_since(h0, reader.history()), error));
                }
                return Err(error);
            },
        };
        let ghost g19 = reader.history();
        proof {
            lemma_prefix_trans(h0, g18, g19);
            assert(cursor.end() == Self::end_before(address, 19));
        }
        let field19 = match cursor.field::<u16, M>(reader, "ClassInternals", "interface_offsets_count") {
            Ok(value) => value,
            Err(error) => {
                proof {
                    lemma_events_chain(h0, g19, reader.history());
                    let cut = events_since(h0, g19).len() as int;
                    assert(Self::field_fails(address, 19, events_since(h0, reader.history()).skip(cut), error)) by {
                        reveal(ClassInternals::field_fails);
                    }
                    assert(Self::fails_at_field(address, events_since(h0, reader.history()), error));
                }
                return Err(error);
            },
        };
        let ghost g20 = reader.history();
        proof {
            lemma_prefix_trans(h0, g19, g20);
            assert(cursor.end() == Self::end_before(address, 20));
        }
        let part = ClassInternalsPart1 { field10, field11, field12, field13, field14, field15, field16, field17, field18, field19 };
        let ghost histories = Seq::new(11, |i: int|
            if i == 0 {
                g10
            } else if i == 1 {
                g11
            } else if i == 2 {
                g12
            } else if i == 3 {
                g13
            } else if i == 4 {
                g14
            } else if i == 5 {
                g15
            } else if i == 6 {
                g16
            } else if i == 7 {
                g17
            } else if i == 8 {
                g18
            } else if i == 9 {
                g19
            } else {
                g20
            });
        proof {
            assert forall|i: int| 0 <= i < 10 implies (#[trigger] histories[i]).is_prefix_of(histories[i + 1])
                && Self::part1_read(address, part, 10 + i, events_since(histories[i], histories[i + 1])) by {
                if i == 0 {
                    assert(Self::part1_read(address, part, 10, events_since(g10, g11))) by {
                        reveal(ClassInternals::part1_read);
                    }
                } else if i == 1 {
                    assert(Self::part1_read(address, part, 11, events_since(g11, g12))) by {
                        reveal(ClassInternals::part1_read);
                    }
                } else if i == 2 {
                    assert(Self::part1_read(address, part, 12, events_since(g12, g13))) by {
                        reveal(ClassInternals::part1_read);
                    }
                } else if i == 3 {
                    assert(Self::part1_read(address, part, 13, events_since(g13, g14))) by {
                        reveal(ClassInternals::part1_read);
                    }
                } else if i == 4 {
                    assert(Self::part1_read(address, part, 14, events_since(g14, g15))) by {
                        reveal(ClassInternals::part1_read);
                    }
                } else if i == 5 {
                    assert(Self::part1_read(address, part, 15, events_since(g15, g16))) by {
                        reveal(ClassInternals::part1_read);
                    }
                } else if i == 6 {
                    assert(Self::part1_read(address, part, 16, events_since(g16, g17))) by {
                        reveal(ClassInternals::part1_read);
                    }
                } else if i == 7 {
                    assert(Self::part1_read(address, part, 17, events_since(g17, g18))) by {
                        reveal(ClassInternals::part1_read);
                    }
                } else if i == 8 {
                    assert(Self::part1_read(address, part, 18, events_since(g18, g19))) by {
                        reveal(ClassInternals::part1_read);
                    }
                } else if i == 9 {
                    assert(Self::part1_read(address, part, 19, events_since(g19, g20))) by {
                        reveal(ClassInternals::part1_read);
                    }
                }
            }
        }
        Ok((part, Ghost(histories)))
    }

    /// What the reading of field `index` did to arrive at that field of `part`.
    #[verifier::opaque]
    spec fn part2_read(address: Address, part: ClassInternalsPart2, index: int, events: Seq<ReadEvent>) -> bool {
        if index == 20 {
            field_step::<Option<Address>>(
                address,
                Self::end_before(address, 20),
                field_context_text("ClassInternals"@, "interfaces_packed"@),
                events,
                Ok(part.field20),
            )
        } else if index == 21 {
            field_step::<Option<Address>>(
                address,
                Self::end_before(address, 21),
                field_context_text("ClassInternals"@, "interface_offsets_packed"@),
                events,
                Ok(part.field21),
            )
        } else if index == 22 {
            field_step::<Option<Address>>(
                address,
                Self::end_before(address, 22),
                field_context_text("ClassInternals"@, "interface_bitmap"@),
                events,
                Ok(part.field22),
            )
        } else if index == 23 {
            field_step::<Option<Address>>(
                address,
                Self::end_before(address, 23),
                field_context_text("ClassInternals"@, "interfaces"@),
                events,
                Ok(part.field23),
            )
        } else if index == 24 {
            field_step::<i32>(
                address,
                Self::end_before(address, 24),
                field_context_text("ClassInternals"@, "sizes"@),
                events,
                Ok(part.field24),
            )
        } else if index == 25 {
            field_step::<ArrayPtr<MonoClassField>>(
                address,
                Self::end_before(address, 25),
                field_context_text("ClassInternals"@, "fields"@),
                events,
                Ok(part.field25),
            )
        } else if index == 26 {
            field_step::<Option<Address>>(
                address,
                Self::end_before(address, 26),
                field_context_text("ClassInternals"@, "methods"@),
                events,
                Ok(part.field26),
            )
        } else if index == 27 {
            field_step::<MonoType>(
                address,
                Self::end_before(address, 27),
                field_context_text("ClassInternals"@, "this_arg"@),
                events,
                Ok(part.field27),
            )
        } else if index == 28 {
            field_step::<MonoType>(
                address,
                Self::end_before(address, 28),
                field_context_text("ClassInternals"@, "byval_arg"@),
                events,
                Ok(part.field28),
            )
        } else {
            field_step::<Option<Address>>(
                address,
                Self::end_before(address, 29),
                field_context_text("ClassInternals"@, "gc_descr"@),
                events,
                Ok(part.field29),
            )
        }
    }

    /// Reads the fields 20 to 29, in declaration order, from where
    /// `cursor` stands.
    fn read_part2<M: MemoryReader>(reader: &mut M, cursor: &mut FieldCursor, Ghost(address): Ghost<Address>) -> (r: Result<
        (ClassInternalsPart2, Ghost<Seq<Seq<ReadEvent>>>),
        Error,
    >)
        requires
            old(cursor).origin() == address,
            old(cursor).end() == Self::end_before(address, 20),
        ensures
            old(reader).history().is_prefix_of(final(reader).history()),
            final(cursor).origin() == address,
            match r {
                Ok((part, histories)) => {
                    &&& final(cursor).end() == Self::end_before(address, 30)
                    &&& histories@.len() == 11
                    &&& histories@[0] == old(reader).history()
                    &&& histories@[10] == final(reader).history()
                    &&& forall|i: int|
                        0 <= i < 10 ==> (#[trigger] histories@[i]).is_prefix_of(histories@[i + 1])
                            && Self::part2_read(
                            address,
                            part,
                            20 + i,
                            events_since(histories@[i], histories@[i + 1]),
                        )
                },
                Err(error) => Self::fails_at_field(
                    address,
                    events_since(old(reader).history(), final(reader).history()),
                    error,
                ),
            },
    {
        let ghost h0 = reader.history();
        let ghost g20 = h0;
        proof {
            Self::lemma_fields();
            lemma_no_events(h0);
            assert(Self::end_before(address, 0) == address@);
        }
        let field20 = match cursor.field::<Option<Address>, M>(reader, "ClassInternals", "interfaces_packed") {
            Ok(value) => value,
            Err(error) => {
                proof {
                    lemma_events_chain(h0, g20, reader.history());
                    let cut = events_since(h0, g20).len() as int;
                    assert(Self::field_fails(address, 20, events_since(h0, reader.history()).skip(cut), error)) by {
                        reveal(ClassInternals::field_fails);
                    }
                    assert(Self::fails_at_field(address, events_since(h0, reader.history()), error));
                }
                return Err(error);
            },
        };
        let ghost g21 = reader.history();
        proof {
            lemma_prefix_trans(h0, g20, g21);
            assert(cursor.end() == Self::end_before(address, 21));
        }
        let field21 = match cursor.field::<Option<Address>, M>(reader, "ClassInternals", "interface_offsets_packed") {
            Ok(value) => value,
            Err(error) => {
                proof {
                    lemma_events_chain(h0, g21, reader.history());
                    let cut = events_since(h0, g21).len() as int;
                    assert(Self::field_fails(address, 21, events_since(h0, reader.history()).skip(cut), error)) by {
                        reveal(ClassInternals::field_fails);
                    }
                    assert(Self::fails_at_field(address, events_since(h0, reader.history()), error));
                }
                return Err(error);
            },
        };
        let ghost g22 = reader.history();
        proof {
            lemma_prefix_trans(h0, g21, g22);
            assert(cursor.end() == Self::end_before(address, 22));
        }
        let field22 = match cursor.field::<Option<Address>, M>(reader, "ClassInternals", "interface_bitmap") {
            Ok(value) => value,
            Err(error) => {
                proof {
                    lemma_events_chain(h0, g22, reader.history());
                    let cut = events_since(h0, g22).len() as int;
                    assert(Self::field_fails(address, 22, events_since(h0, reader.history()).skip(cut), error)) by {
                        reveal(ClassInternals::field_fails);
                    }
                    assert(Self::fails_at_field(address, events_since(h0, reader.history()), error));
                }
                return Err(error);
            },
        };
        let ghost g23 = reader.history();
        proof {
            lemma_prefix_trans(h0, g22, g23);
            assert(cursor.end() == Self::end_before(address, 23));
        }
        let field23 = match cursor.field::<Option<Address>, M>(reader, "ClassInternals", "interfaces") {
            Ok(value) => value,
            Err(error) => {
                proof {
                    lemma_events_chain(h0, g23, reader.history());
                    let cut = events_since(h0, g23).len() as int;
                    assert(Self::field_fails(address, 23, events_since(h0, reader.history()).skip(cut), error)) by {
                        reveal(ClassInternals::field_fails);
                    }
                    assert(Self::fails_at_field(address, events_since(h0, reader.history()), error));
                }
                return Err(error);
            },
        };
        let ghost g24 = reader.history();
        proof {
            lemma_prefix_trans(h0, g23, g24);
            assert(cursor.end() == Self::end_before(address, 24));
        }
        let field24 = match cursor.field::<i32, M>(reader, "ClassInternals", "sizes") {
            Ok(value) => value,
            Err(error) => {
                proof {
                    lemma_events_chain(h0, g24, reader.history());
                    let cut = events_since(h0, g24).len() as int;
                    assert(Self::field_fails(address, 24, events_since(h0, reader.history()).skip(cut), error)) by {
                        reveal(ClassInternals::field_fails);
                    }
                    assert(Self::fails_at_field(address, events_since(h0, reader.history()), error));
                }
                return Err(error);
            },
        };
        let ghost g25 = reader.history();
        proof {
            lemma_prefix_trans(h0, g24, g25);
            assert(cursor.end() == Self::end_before(address, 25));
        }
        let field25 = match cursor.field::<ArrayPtr<MonoClassField>, M>(reader, "ClassInternals", "fields") {
            Ok(value) => value,
            Err(error) => {
                proof {
                    lemma_events_chain(h0, g25, reader.history());
                    let cut = events_since(h0, g25).len() as int;
                    assert(Self::field_fails(address, 25, events_since(h0, reader.history()).skip(cut), error)) by {
                        reveal(ClassInternals::field_fails);
                    }
                    assert(Self::fails_at_field(address, events_since(h0, reader.history()), error));
                }
                return Err(error);
            },
        };
        let ghost g26 = reader.history();
        proof {
            lemma_prefix_trans(h0, g25, g26);
            assert(cursor.end() == Self::end_before(address, 26));
        }
        let field26 = match cursor.field::<Option<Address>, M>(reader, "ClassInternals", "methods") {
            Ok(value) => value,
            Err(error) => {
                proof {
                    lemma_events_chain(h0, g26, reader.history());
                    let cut = events_since(h0, g26).len() as int;
                    assert(Self::field_fails(address, 26, events_since(h0, reader.history()).skip(cut), error)) by {
                        reveal(ClassInternals::field_fails);
                    }
                    assert(Self::fails_at_field(address, events_since(h0, reader.history()), error));
                }
                return Err(error);
            },
        };
        let ghost g27 = reader.history();
        proof {
            lemma_prefix_trans(h0, g26, g27);
            assert(cursor.end() == Self::end_before(address, 27));
        }
        let field27 = match cursor.field::<MonoType, M>(reader, "ClassInternals", "this_arg") {
            Ok(value) => value,
            Err(error) => {
                proof {
                    lemma_events_chain(h0, g27, reader.history());
                    let cut = events_since(h0, g27).len() as int;
                    assert(Self::field_fails(address, 27, events_since(h0, reader.history()).skip(cut), error)) by {
                        reveal(ClassInternals::field_fails);
                    }
                    assert(Self::fails_at_field(address, events_since(h0, reader.history()), error));
                }
                return Err(error);
            },
        };
        let ghost g28 = reader.history();
        proof {
            lemma_prefix_trans(h0, g27, g28);
            assert(cursor.end() == Self::end_before(address, 28));
        }
        let field28 = match cursor.field::<MonoType, M>(reader, "ClassInternals", "byval_arg") {
            Ok(value) => value,
            Err(error) => {
                proof {
                    lemma_events_chain(h0, g28, reader.history());
                    let cut = events_since(h0, g28).len() as int;
                    assert(Self::field_fails(address, 28, events_since(h0, reader.history()).skip(cut), error)) by {
                        reveal(ClassInternals::field_fails);
                    }
                    assert(Self::fails_at_field(address, events_since(h0, reader.history()), error));
                }
                return Err(error);
            },
        };
        let ghost g29 = reader.history();
        proof {
            lemma_prefix_trans(h0, g28, g29);
            assert(cursor.end() == Self::end_before(address, 29));
        }
        let field29 = match cursor.field::<Option<Address>, M>(reader, "ClassInternals", "gc_descr") {
            Ok(value) => value,
            Err(error) => {
                proof {
                    lemma_events_chain(h0, g29, reader.history());
                    let cut = events_since(h0, g29).len() as int;
                    assert(Self::field_fails(address, 29, events_since(h0, reader.history()).skip(cut), error)) by {
                        reveal(ClassInternals::field_fails);
                    }
                    assert(Self::fails_at_field(address, events_since(h0, reader.history()), error));
                }
                return Err(error);
            },
        };
        let ghost g30 = reader.history();
        proof {
            lemma_prefix_trans(h0, g29, g30);
            assert(cursor.end() == Self::end_before(address, 30));
        }
        let part = ClassInternalsPart2 { field20, field21, field22, field23, field24, field25, field26, field27, field28, field29 };
        let ghost histories = Seq::new(11, |i: int|
            if i == 0 {
                g20
            } else if i == 1 {
                g21
            } else if i == 2 {
                g22
            } else if i == 3 {
                g23
            } else if i == 4 {
                g24
            } else if i == 5 {
                g25
            } else if i == 6 {
                g26
            } else if i == 7 {
                g27
            } else if i == 8 {
                g28
            } else if i == 9 {
                g29
            } else {
                g30
            });
        proof {
            assert forall|i: int| 0 <= i < 10 implies (#[trigger] histories[i]).is_prefix_of(histories[i + 1])
                && Self::part2_read(address, part, 20 + i, events_since(histories[i], histories[i + 1])) by {
                if i == 0 {
                    assert(Self::part2_read(address, part, 20, events_since(g20, g21))) by {
                        reveal(ClassInternals::part2_read);
                    }
                } else if i == 1 {
                    assert(Self::part2_read(address, part, 21, events_since(g21, g22))) by {
                        reveal(ClassInternals::part2_read);
                    }
                } else if i == 2 {
                    assert(Self::part2_read(address, part, 22, events_since(g22, g23))) by {
                        reveal(ClassInternals::part2_read);
                    }
                } else if i == 3 {
                    assert(Self::part2_read(address, part, 23, events_since(g23, g24))) by {
                        reveal(ClassInternals::part2_read);
                    }
                } else if i == 4 {
                    assert(Self::part2_read(address, part, 24, events_since(g24, g25))) by {
                        reveal(ClassInternals::part2_read);
                    }
                } else if i == 5 {
                    assert(Self::part2_read(address, part, 25, events_since(g25, g26))) by {
                        reveal(ClassInternals::part2_read);
                    }
                } else if i == 6 {
                    assert(Self::part2_read(address, part, 26, events_since(g26, g27))) by {
                        reveal(ClassInternals::part2_read);
                    }
                } else if i == 7 {
                    assert(Self::part2_read(address, part, 27, events_since(g27, g28))) by {
                        reveal(ClassInternals::part2_read);
                    }
                } else if i == 8 {
                    assert(Self::part2_read(address, part, 28, events_since(g28, g29))) by {
                        reveal(ClassInternals::part2_read);
                    }
                } else if i == 9 {
                    assert(Self::part2_read(address, part, 29, events_since(g29, g30))) by {
                        reveal(ClassInternals::part2_read);
                    }
                }
            }
        }
        Ok((part, Ghost(histories)))
    }

    /// What the reading of field `index` did to arrive at that field of `part`.
    #[verifier::opaque]
    spec fn part3_read(address: Address, part: ClassInternalsPart3, index: int, events: Seq<ReadEvent>) -> bool {
        if index == 30 {
            field_step::<Eager<Option<Ptr<MonoClassRuntimeInfo>>>>(
                address,
                Self::end_before(address, 30),
                field_context_text("ClassInternals"@, "runtime_info"@),
                events,
                Ok(part.field30),
            )
        } else if index == 31 {
            field_step::<Option<Address>>(
                address,
                Self::end_before(address, 31),
                field_context_text("ClassInternals"@, "vtable"@),
                events,
                Ok(part.field31),
            )
        } else if index == 32 {
            field_step::<Option<Address>>(
                address,
                Self::end_before(address, 32),
                field_context_text("ClassInternals"@, "infrequent_data"@),
                events,
                Ok(part.field32),
            )
        } else if index == 33 {
            field_step::<Option<Address>>(
                address,
                Self::end_before(address, 33),
                field_context_text("ClassInternals"@, "unity_user_data"@),
                events,
                Ok(part.field33),
            )
        } else if index == 34 {
            field_step::<u32>(
                address,
                Self::end_before(address, 34),
                field_context_text("ClassInternals"@, "flags"@),
                events,
                Ok(part.field34),
            )
        } else if index == 35 {
            field_step::<u32>(
                address,
                Self::end_before(address, 35),
                field_context_text("ClassInternals"@, "first_method_idx"@),
                events,
                Ok(part.field35),
            )
        } else if index == 36 {
            field_step::<u32>(
                address,
                Self::end_before(address, 36),
                field_context_text("ClassInternals"@, "first_field_idx"@),
                events,
                Ok(part.field36),
            )
        } else if index == 37 {
            field_step::<u32>(
                address,
                Self::end_before(address, 37),
                field_context_text("ClassInternals"@, "method_count"@),
                events,
                Ok(part.field37),
            )
        } else if index == 38 {
            field_step::<u32>(
                address,
                Self::end_before(address, 38),
                field_context_text("ClassInternals"@, "field_count"@),
                events,
                Ok(part.field38),
            )
        } else {
            field_step::<Option<Address>>(
                address,
                Self::end_before(address, 39),
                field_context_text("ClassInternals"@, "next_class_cache"@),
                events,
                Ok(part.field39),
            )
        }
    }

    /// Reads the fields 30 to 39, in declaration order, from where
    /// `cursor` stands.
    fn read_part3<M: MemoryReader>(reader: &mut M, cursor: &mut FieldCursor, Ghost(address): Ghost<Address>) -> (r: Result<
        (ClassInternalsPart3, Ghost<Seq<Seq<ReadEvent>>>),
        Error,
    >)
        requires
            old(cursor).origin() == address,
            old(cursor).end() == Self::end_before(address, 30),
        ensures
            old(reader).history().is_prefix_of(final(reader).history()),
            final(cursor).origin() == address,
            match r {
                Ok((part, histories)) => {
                    &&& final(cursor).end() == Self::end_before(address, 40)
                    &&& histories@.len() == 11
                    &&& histories@[0] == old(reader).history()
                    &&& histories@[10] == final(reader).history()
                    &&& forall|i: int|
                        0 <= i < 10 ==> (#[trigger] histories@[i]).is_prefix_of(histories@[i + 1])
                            && Self::part3_read(
                            address,
                            part,
                            30 + i,
                            events_since(histories@[i], histories@[i + 1]),
                        )
                },
                Err(error) => Self::fails_at_field(
                    address,
                    events_since(old(reader).history(), final(reader).history()),
                    error,
                ),
            },
    {
        let ghost h0 = reader.history();
        let ghost g30 = h0;
        proof {
            Self::lemma_fields();
            lemma_no_events(h0);
            assert(Self::end_before(address, 0) == address@);
        }
        let field30 = match cursor.field::<Eager<Option<Ptr<MonoClassRuntimeInfo>>>, M>(reader, "ClassInternals", "runtime_info") {
            Ok(value) => value,
            Err(error) => {
                proof {
                    lemma_events_chain(h0, g30, reader.history());
                    let cut = events_since(h0, g30).len() as int;
                    assert(Self::field_fails(address, 30, events_since(h0, reader.history()).skip(cut), error)) by {
                        reveal(ClassInternals::field_fails);
                    }
                    assert(Self::fails_at_field(address, events_since(h0, reader.history()), error));
                }
                return Err(error);
            },
        };
        let ghost g31 = reader.history();
        proof {
            lemma_prefix_trans(h0, g30, g31);
            assert(cursor.end() == Self::end_before(address, 31));
        }
        let field31 = match cursor.field::<Option<Address>, M>(reader, "ClassInternals", "vtable") {
            Ok(value) => value,
            Err(error) => {
                proof {
                    lemma_events_chain(h0, g31, reader.history());
                    let cut = events_since(h0, g31).len() as int;
                    assert(Self::field_fails(address, 31, events_since(h0, reader.history()).skip(cut), error)) by {
                        reveal(ClassInternals::field_fails);
                    }
                    assert(Self::fails_at_field(address, events_since(h0, reader.history()), error));
                }
                return Err(error);
            },
        };
        let ghost g32 = reader.history();
        proof {
            lemma_prefix_trans(h0, g31, g32);
            assert(cursor.end() == Self::end_before(address, 32));
        }
        let field32 = match cursor.field::<Option<Address>, M>(reader, "ClassInternals", "infrequent_data") {
            Ok(value) => value,
            Err(error) => {
                proof {
                    lemma_events_chain(h0, g32, reader.history());
                    let cut = events_since(h0, g32).len() as int;
                    assert(Self::field_fails(address, 32, events_since(h0, reader.history()).skip(cut), error)) by {
                        reveal(ClassInternals::field_fails);
                    }
                    assert(Self::fails_at_field(address, events_since(h0, reader.history()), error));
                }
                return Err(error);
            },
        };
        let ghost g33 = reader.history();
        proof {
            lemma_prefix_trans(h0, g32, g33);
            assert(cursor.end() == Self::end_before(address, 33));
        }
        let field33 = match cursor.field::<Option<Address>, M>(reader, "ClassInternals", "unity_user_data") {
            Ok(value) => value,
            Err(error) => {
                proof {
                    lemma_events_chain(h0, g33, reader.history());
                    let cut = events_since(h0, g33).len() as int;
                    assert(Self::field_fails(address, 33, events_since(h0, reader.history()).skip(cut), error)) by {
                        reveal(ClassInternals::field_fails);
                    }
                    assert(Self::fails_at_field(address, events_since(h0, reader.history()), error));
                }
                return Err(error);
            },
        };
        let ghost g34 = reader.history();
        proof {
            lemma_prefix_trans(h0, g33, g34);
            assert(cursor.end() == Self::end_before(address, 34));
        }
        let field34 = match cursor.field::<u32, M>(reader, "ClassInternals", "flags") {
            Ok(value) => value,
            Err(error) => {
                proof {
                    lemma_events_chain(h0, g34, reader.history());
                    let cut = events_since(h0, g34).len() as int;
                    assert(Self::field_fails(address, 34, events_since(h0, reader.history()).skip(cut), error)) by {
                        reveal(ClassInternals::field_fails);
                    }
                    assert(Self::fails_at_field(address, events_since(h0, reader.history()), error));
                }
                return Err(error);
            },
        };
        let ghost g35 = reader.history();
        proof {
            lemma_prefix_trans(h0, g34, g35);
            assert(cursor.end() == Self::end_before(address, 35));
        }
        let field35 = match cursor.field::<u32, M>(reader, "ClassInternals", "first_method_idx") {
            Ok(value) => value,
            Err(error) => {
                proof {
                    lemma_events_chain(h0, g35, reader.history());
                    let cut = events_since(h0, g35).len() as int;
                    assert(Self::field_fails(address, 35, events_since(h0, reader.history()).skip(cut), error)) by {
                        reveal(ClassInternals::field_fails);
                    }
                    assert(Self::fails_at_field(address, events_since(h0, reader.history()), error));
                }
                return Err(error);
            },
        };
        let ghost g36 = reader.history();
        proof {
            lemma_prefix_trans(h0, g35, g36);
            assert(cursor.end() == Self::end_before(address, 36));
        }
        let field36 = match cursor.field::<u32, M>(reader, "ClassInternals", "first_field_idx") {
            Ok(value) => value,
            Err(error) => {
                proof {
                    lemma_events_chain(h0, g36, reader.history());
                    let cut = events_since(h0, g36).len() as int;
                    assert(Self::field_fails(address, 36, events_since(h0, reader.history()).skip(cut), error)) by {
                        reveal(ClassInternals::field_fails);
                    }
                    assert(Self::fails_at_field(address, events_since(h0, reader.history()), error));
                }
                return Err(error);
            },
        };
        let ghost g37 = reader.history();
        proof {
            lemma_prefix_trans(h0, g36, g37);
            assert(cursor.end() == Self::end_before(address, 37));
        }
        let field37 = match cursor.field::<u32, M>(reader, "ClassInternals", "method_count") {
            Ok(value) => value,
            Err(error) => {
                proof {
                    lemma_events_chain(h0, g37, reader.history());
                    let cut = events_since(h0, g37).len() as int;
                    assert(Self::field_fails(address, 37, events_since(h0, reader.history()).skip(cut), error)) by {
                        reveal(ClassInternals::field_fails);
                    }
                    assert(Self::fails_at_field(address, events_since(h0, reader.history()), error));
                }
                return Err(error);
            },
        };
        let ghost g38 = reader.history();
        proof {
            lemma_prefix_trans(h0, g37, g38);
            assert(cursor.end() == Self::end_before(address, 38));
        }
        let field38 = match cursor.field::<u32, M>(reader, "ClassInternals", "field_count") {
            Ok(value) => value,
            Err(error) => {
                proof {
                    lemma_events_chain(h0, g38, reader.history());
                    let cut = events_since(h0, g38).len() as int;
                    assert(Self::field_fails(address, 38, events_since(h0, reader.history()).skip(cut), error)) by {
                        reveal(ClassInternals::field_fails);
                    }
                    assert(Self::fails_at_field(address, events_since(h0, reader.history()), error));
                }
                return Err(error);
            },
        };
        let ghost g39 = reader.history();
        proof {
            lemma_prefix_trans(h0, g38, g39);
            assert(cursor.end() == Self::end_before(address, 39));
        }
        let field39 = match cursor.field::<Option<Address>, M>(reader, "ClassInternals", "next_class_cache") {
            Ok(value) => value,
            Err(error) => {
                proof {
                    lemma_events_chain(h0, g39, reader.history());
                    let cut = events_since(h0, g39).len() as int;
                    assert(Self::field_fails(address, 39, events_since(h0, reader.history()).skip(cut), error)) by {
                        reveal(ClassInternals::field_fails);
                    }
                    assert(Self::fails_at_field(address, events_since(h0, reader.history()), error));
                }
                return Err(error);
            },
        };
        let ghost g40 = reader.history();
        proof {
            lemma_prefix_trans(h0, g39, g40);
            assert(cursor.end() == Self::end_before(address, 40));
        }
        let part = ClassInternalsPart3 { field30, field31, field32, field33, field34, field35, field36, field37, field38, field39 };
        let ghost histories = Seq::new(11, |i: int|
            if i == 0 {
                g30
            } else if i == 1 {
                g31
            } else if i == 2 {
                g32
            } else if i == 3 {
                g33
            } else if i == 4 {
                g34
            } else if i == 5 {
                g35
            } else if i == 6 {
                g36
            } else if i == 7 {
                g37
            } else if i == 8 {
                g38
            } else if i == 9 {
                g39
            } else {
                g40
            });
        proof {
            assert forall|i: int| 0 <= i < 10 implies (#[trigger] histories[i]).is_prefix_of(histories[i + 1])
                && Self::part3_read(address, part, 30 + i, events_since(histories[i], histories[i + 1])) by {
                if i == 0 {
                    assert(Self::part3_read(address, part, 30, events_since(g30, g31))) by {
                        reveal(ClassInternals::part3_read);
                    }
                } else if i == 1 {
                    assert(Self::part3_read(address, part, 31, events_since(g31, g32))) by {
                        reveal(ClassInternals::part3_read);
                    }
                } else if i == 2 {
                    assert(Self::part3_read(address, part, 32, events_since(g32, g33))) by {
                        reveal(ClassInternals::part3_read);
                    }
                } else if i == 3 {
                    assert(Self::part3_read(address, part, 33, events_since(g33, g34))) by {
                        reveal(ClassInternals::part3_read);
                    }
                } else if i == 4 {
                    assert(Self::part3_read(address, part, 34, events_since(g34, g35))) by {
                        reveal(ClassInternals::part3_read);
                    }
                } else if i == 5 {
                    assert(Self::part3_read(address, part, 35, events_since(g35, g36))) by {
                        reveal(ClassInternals::part3_read);
                    }
                } else if i == 6 {
                    assert(Self::part3_read(address, part, 36, events_since(g36, g37))) by {
                        reveal(ClassInternals::part3_read);
                    }
                } else if i == 7 {
                    assert(Self::part3_read(address, part, 37, events_since(g37, g38))) by {
                        reveal(ClassInternals::part3_read);
                    }
                } else if i == 8 {
                    assert(Self::part3_read(address, part, 38, events_since(g38, g39))) by {
                        reveal(ClassInternals::part3_read);
                    }
                } else if i == 9 {
                    assert(Self::part3_read(address, part, 39, events_since(g39, g40))) by {
                        reveal(ClassInternals::part3_read);
                    }
                }
            }
        }
        Ok((part, Ghost(histories)))
    }

    /// When each part was read after the one before it, and the fields of
    /// `value` are those of the parts, what was read is `value`.
    proof fn lemma_parts_read(address: Address, value: Self, part0: ClassInternalsPart0, histories0: Seq<Seq<ReadEvent>>, part1: ClassInternalsPart1, histories1: Seq<Seq<ReadEvent>>, part2: ClassInternalsPart2, histories2: Seq<Seq<ReadEvent>>, part3: ClassInternalsPart3, histories3: Seq<Seq<ReadEvent>>)
        requires
            histories0.len() == 11,
            forall|i: int|
                0 <= i < 10 ==> (#[trigger] histories0[i]).is_prefix_of(histories0[i + 1]) && Self::part0_read(
                    address,
                    part0,
                    0 + i,
                    events_since(histories0[i], histories0[i + 1]),
                ),
            value.element_class == part0.field0,
            value.cast_class == part0.field1,
            value.supertypes == part0.field2,
            value.idepth == part0.field3,
            value.rank == part0.field4,
            value.instance_size == part0.field5,
            value._bitfields_group_1 == part0.field6,
            value.min_align == part0.field7,
            value._bitfields_group_2 == part0.field8,
            value.parent == part0.field9,
            histories1.len() == 11,
            histories1[0] == histories0[10],
            forall|i: int|
                0 <= i < 10 ==> (#[trigger] histories1[i]).is_prefix_of(histories1[i + 1]) && Self::part1_read(
                    address,
                    part1,
                    10 + i,
                    events_since(histories1[i], histories1[i + 1]),
                ),
            value.nested_in == part1.field10,
            value.image == part1.field11,
            value.name == part1.field12,
            value.name_space == part1.field13,
            value.type_token == part1.field14,
            value.vtable_size == part1.field15,
            value.interface_count == part1.field16,
            value.interface_id == part1.field17,
            value.max_interface_id == part1.field18,
            value.interface_offsets_count == part1.field19,
            histories2.len() == 11,
            histories2[0] == histories1[10],
            forall|i: int|
                0 <= i < 10 ==> (#[trigger] histories2[i]).is_prefix_of(histories2[i + 1]) && Self::part2_read(
                    address,
                    part2,
                    20 + i,
                    events_since(histories2[i], histories2[i + 1]),
                ),
            value.interfaces_packed == part2.field20,
            value.interface_offsets_packed == part2.field21,
            value.interface_bitmap == part2.field22,
            value.interfaces == part2.field23,
            value.sizes == part2.field24,
            value.fields == part2.field25,
            value.methods == part2.field26,
            value.this_arg == part2.field27,
            value.byval_arg == part2.field28,
            value.gc_descr == part2.field29,
            histories3.len() == 11,
            histories3[0] == histories2[10],
            forall|i: int|
                0 <= i < 10 ==> (#[trigger] histories3[i]).is_prefix_of(histories3[i + 1]) && Self::part3_read(
                    address,
                    part3,
                    30 + i,
                    events_since(histories3[i], histories3[i + 1]),
                ),
            value.runtime_info == part3.field30,
            value.vtable == part3.field31,
            value.infrequent_data == part3.field32,
            value.unity_user_data == part3.field33,
            value.flags == part3.field34,
            value.first_method_idx == part3.field35,
            value.first_field_idx == part3.field36,
            value.method_count == part3.field37,
            value.field_count == part3.field38,
            value.next_class_cache == part3.field39,
        ensures
            Self::reads_fields(address, events_since(histories0[0], histories3[10]), value),
    {
        let histories = Seq::new(41, |i: int|
            if i < 10 {
                histories0[i - 0]
            } else if i < 20 {
                histories1[i - 10]
            } else if i < 30 {
                histories2[i - 20]
            } else {
                histories3[i - 30]
            });
        assert forall|i: int| 0 <= i < 40 implies (#[trigger] histories[i]).is_prefix_of(histories[i + 1])
            && Self::field_read(address, value, i, events_since(histories[i], histories[i + 1])) by {
            if i == 0 {
                assert(histories0[0].is_prefix_of(histories0[1]));
                assert(0 == 0 + 0int);
                assert(Self::part0_read(address, part0, 0, events_since(histories0[0], histories0[1])));
                assert(Self::field_read(address, value, 0, events_since(histories0[0], histories0[1]))) by {
                    reveal(ClassInternals::part0_read);
                    reveal(ClassInternals::field_read);
                }
            } else if i == 1 {
                assert(histories0[1].is_prefix_of(histories0[2]));
                assert(1 == 0 + 1int);
                assert(Self::part0_read(address, part0, 1, events_since(histories0[1], histories0[2])));
                assert(Self::field_read(address, value, 1, events_since(histories0[1], histories0[2]))) by {
                    reveal(ClassInternals::part0_read);
                    reveal(ClassInternals::field_read);
                }
            } else if i == 2 {
                assert(histories0[2].is_prefix_of(histories0[3]));
                assert(2 == 0 + 2int);
                assert(Self::part0_read(address, part0, 2, events_since(histories0[2], histories0[3])));
                assert(Self::field_read(address, value, 2, events_since(histories0[2], histories0[3]))) by {
                    reveal(ClassInternals::part0_read);
                    reveal(ClassInternals::field_read);
                }
            } else if i == 3 {
                assert(histories0[3].is_prefix_of(histories0[4]));
                assert(3 == 0 + 3int);
                assert(Self::part0_read(address, part0, 3, events_since(histories0[3], histories0[4])));
                assert(Self::field_read(address, value, 3, events_since(histories0[3], histories0[4]))) by {
                    reveal(ClassInternals::part0_read);
                    reveal(ClassInternals::field_read);
                }
            } else if i == 4 {
                assert(histories0[4].is_prefix_of(histories0[5]));
                assert(4 == 0 + 4int);
                assert(Self::part0_read(address, part0, 4, events_since(histories0[4], histories0[5])));
                assert(Self::field_read(address, value, 4, events_since(histories0[4], histories0[5]))) by {
                    reveal(ClassInternals::part0_read);
                    reveal(ClassInternals::field_read);
                }
            } else if i == 5 {
                assert(histories0[5].is_prefix_of(histories0[6]));
                assert(5 == 0 + 5int);
                assert(Self::part0_read(address, part0, 5, events_since(histories0[5], histories0[6])));
                assert(Self::field_read(address, value, 5, events_since(histories0[5], histories0[6]))) by {
                    reveal(ClassInternals::part0_read);
                    reveal(ClassInternals::field_read);
                }
            } else if i == 6 {
                assert(histories0[6].is_prefix_of(histories0[7]));
                assert(6 == 0 + 6int);
                assert(Self::part0_read(address, part0, 6, events_since(histories0[6], histories0[7])));
                assert(Self::field_read(address, value, 6, events_since(histories0[6], histories0[7]))) by {
                    reveal(ClassInternals::part0_read);
                    reveal(ClassInternals::field_read);
                }
            } else if i == 7 {
                assert(histories0[7].is_prefix_of(histories0[8]));
                assert(7 == 0 + 7int);
                assert(Self::part0_read(address, part0, 7, events_since(histories0[7], histories0[8])));
                assert(Self::field_read(address, value, 7, events_since(histories0[7], histories0[8]))) by {
                    reveal(ClassInternals::part0_read);
                    reveal(ClassInternals::field_read);
                }
            } else if i == 8 {
                assert(histories0[8].is_prefix_of(histories0[9]));
                assert(8 == 0 + 8int);
                assert(Self::part0_read(address, part0, 8, events_since(histories0[8], histories0[9])));
                assert(Self::field_read(address, value, 8, events_since(histories0[8], histories0[9]))) by {
                    reveal(ClassInternals::part0_read);
                    reveal(ClassInternals::field_read);
                }
            } else if i == 9 {
                assert(histories0[9].is_prefix_of(histories0[10]));
                assert(9 == 0 + 9int);
                assert(Self::part0_read(address, part0, 9, events_since(histories0[9], histories0[10])));
                assert(Self::field_read(address, value, 9, events_since(histories0[9], histories0[10]))) by {
                    reveal(ClassInternals::part0_read);
                    reveal(ClassInternals::field_read);
                }
            } else if i == 10 {
                assert(histories1[0].is_prefix_of(histories1[1]));
                assert(10 == 10 + 0int);
                assert(Self::part1_read(address, part1, 10, events_since(histories1[0], histories1[1])));
                assert(Self::field_read(address, value, 10, events_since(histories1[0], histories1[1]))) by {
                    reveal(ClassInternals::part1_read);
                    reveal(ClassInternals::field_read);
                }
            } else if i == 11 {
                assert(histories1[1].is_prefix_of(histories1[2]));
                assert(11 == 10 + 1int);
                assert(Self::part1_read(address, part1, 11, events_since(histories1[1], histories1[2])));
                assert(Self::field_read(address, value, 11, events_since(histories1[1], histories1[2]))) by {
                    reveal(ClassInternals::part1_read);
                    reveal(ClassInternals::field_read);
                }
            } else if i == 12 {
                assert(histories1[2].is_prefix_of(histories1[3]));
                assert(12 == 10 + 2int);
                assert(Self::part1_read(address, part1, 12, events_since(histories1[2], histories1[3])));
                assert(Self::field_read(address, value, 12, events_since(histories1[2], histories1[3]))) by {
                    reveal(ClassInternals::part1_read);
                    reveal(ClassInternals::field_read);
                }
            } else if i == 13 {
                assert(histories1[3].is_prefix_of(histories1[4]));
                assert(13 == 10 + 3int);
                assert(Self::part1_read(address, part1, 13, events_since(histories1[3], histories1[4])));
                assert(Self::field_read(address, value, 13, events_since(histories1[3], histories1[4]))) by {
                    reveal(ClassInternals::part1_read);
                    reveal(ClassInternals::field_read);
                }
            } else if i == 14 {
                assert(histories1[4].is_prefix_of(histories1[5]));
                assert(14 == 10 + 4int);
                assert(Self::part1_read(address, part1, 14, events_since(histories1[4], histories1[5])));
                assert(Self::field_read(address, value, 14, events_since(histories1[4], histories1[5]))) by {
                    reveal(ClassInternals::part1_read);
                    reveal(ClassInternals::field_read);
                }
            } else if i == 15 {
                assert(histories1[5].is_prefix_of(histories1[6]));
                assert(15 == 10 + 5int);
                assert(Self::part1_read(address, part1, 15, events_since(histories1[5], histories1[6])));
                assert(Self::field_read(address, value, 15, events_since(histories1[5], histories1[6]))) by {
                    reveal(ClassInternals::part1_read);
                    reveal(ClassInternals::field_read);
                }
            } else if i == 16 {
                assert(histories1[6].is_prefix_of(histories1[7]));
                assert(16 == 10 + 6int);
                assert(Self::part1_read(address, part1, 16, events_since(histories1[6], histories1[7])));
                assert(Self::field_read(address, value, 16, events_since(histories1[6], histories1[7]))) by {
                    reveal(ClassInternals::part1_read);
                    reveal(ClassInternals::field_read);
                }
            } else if i == 17 {
                assert(histories1[7].is_prefix_of(histories1[8]));
                assert(17 == 10 + 7int);
                assert(Self::part1_read(address, part1, 17, events_since(histories1[7], histories1[8])));
                assert(Self::field_read(address, value, 17, events_since(histories1[7], histories1[8]))) by {
                    reveal(ClassInternals::part1_read);
                    reveal(ClassInternals::field_read);
                }
            } else if i == 18 {
                assert(histories1[8].is_prefix_of(histories1[9]));
                assert(18 == 10 + 8int);
                assert(Self::part1_read(address, part1, 18, events_since(histories1[8], histories1[9])));
                assert(Self::field_read(address, value, 18, events_since(histories1[8], histories1[9]))) by {
                    reveal(ClassInternals::part1_read);
                    reveal(ClassInternals::field_read);
                }
            } else if i == 19 {
                assert(histories1[9].is_prefix_of(histories1[10]));
                assert(19 == 10 + 9int);
                assert(Self::part1_read(address, part1, 19, events_since(histories1[9], histories1[10])));
                assert(Self::field_read(address, value, 19, events_since(histories1[9], histories1[10]))) by {
                    reveal(ClassInternals::part1_read);
                    reveal(ClassInternals::field_read);
                }
            } else if i == 20 {
                assert(histories2[0].is_prefix_of(histories2[1]));
                assert(20 == 20 + 0int);
                assert(Self::part2_read(address, part2, 20, events_since(histories2[0], histories2[1])));
                assert(Self::field_read(address, value, 20, events_since(histories2[0], histories2[1]))) by {
                    reveal(ClassInternals::part2_read);
                    reveal(ClassInternals::field_read);
                }
            } else if i == 21 {
                assert(histories2[1].is_prefix_of(histories2[2]));
                assert(21 == 20 + 1int);
                assert(Self::part2_read(address, part2, 21, events_since(histories2[1], histories2[2])));
                assert(Self::field_read(address, value, 21, events_since(histories2[1], histories2[2]))) by {
                    reveal(ClassInternals::part2_read);
                    reveal(ClassInternals::field_read);
                }
            } else if i == 22 {
                assert(histories2[2].is_prefix_of(histories2[3]));
                assert(22 == 20 + 2int);
                assert(Self::part2_read(address, part2, 22, events_since(histories2[2], histories2[3])));
                assert(Self::field_read(address, value, 22, events_since(histories2[2], histories2[3]))) by {
                    reveal(ClassInternals::part2_read);
                    reveal(ClassInternals::field_read);
                }
            } else if i == 23 {
                assert(histories2[3].is_prefix_of(histories2[4]));
                assert(23 == 20 + 3int);
                assert(Self::part2_read(address, part2, 23, events_since(histories2[3], histories2[4])));
                assert(Self::field_read(address, value, 23, events_since(histories2[3], histories2[4]))) by {
                    reveal(ClassInternals::part2_read);
                    reveal(ClassInternals::field_read);
                }
            } else if i == 24 {
                assert(histories2[4].is_prefix_of(histories2[5]));
                assert(24 == 20 + 4int);
                assert(Self::part2_read(address, part2, 24, events_since(histories2[4], histories2[5])));
                assert(Self::field_read(address, value, 24, events_since(histories2[4], histories2[5]))) by {
                    reveal(ClassInternals::part2_read);
                    reveal(ClassInternals::field_read);
                }
            } else if i == 25 {
                assert(histories2[5].is_prefix_of(histories2[6]));
                assert(25 == 20 + 5int);
                assert(Self::part2_read(address, part2, 25, events_since(histories2[5], histories2[6])));
                assert(Self::field_read(address, value, 25, events_since(histories2[5], histories2[6]))) by {
                    reveal(ClassInternals::part2_read);
                    reveal(ClassInternals::field_read);
                }
            } else if i == 26 {
                assert(histories2[6].is_prefix_of(histories2[7]));
                assert(26 == 20 + 6int);
                assert(Self::part2_read(address, part2, 26, events_since(histories2[6], histories2[7])));
                assert(Self::field_read(address, value, 26, events_since(histories2[6], histories2[7]))) by {
                    reveal(ClassInternals::part2_read);
                    reveal(ClassInternals::field_read);
                }
            } else if i == 27 {
                assert(histories2[7].is_prefix_of(histories2[8]));
                assert(27 == 20 + 7int);
                assert(Self::part2_read(address, part2, 27, events_since(histories2[7], histories2[8])));
                assert(Self::field_read(address, value, 27, events_since(histories2[7], histories2[8]))) by {
                    reveal(ClassInternals::part2_read);
                    reveal(ClassInternals::field_read);
                }
            } else if i == 28 {
                assert(histories2[8].is_prefix_of(histories2[9]));
                assert(28 == 20 + 8int);
                assert(Self::part2_read(address, part2, 28, events_since(histories2[8], histories2[9])));
                assert(Self::field_read(address, value, 28, events_since(histories2[8], histories2[9]))) by {
                    reveal(ClassInternals::part2_read);
                    reveal(ClassInternals::field_read);
                }
            } else if i == 29 {
                assert(histories2[9].is_prefix_of(histories2[10]));
                assert(29 == 20 + 9int);
                assert(Self::part2_read(address, part2, 29, events_since(histories2[9], histories2[10])));
                assert(Self::field_read(address, value, 29, events_since(histories2[9], histories2[10]))) by {
                    reveal(ClassInternals::part2_read);
                    reveal(ClassInternals::field_read);
                }
            } else if i == 30 {
                assert(histories3[0].is_prefix_of(histories3[1]));
                assert(30 == 30 + 0int);
                assert(Self::part3_read(address, part3, 30, events_since(histories3[0], histories3[1])));
                assert(Self::field_read(address, value, 30, events_since(histories3[0], histories3[1]))) by {
                    reveal(ClassInternals::part3_read);
                    reveal(ClassInternals::field_read);
                }
            } else if i == 31 {
                assert(histories3[1].is_prefix_of(histories3[2]));
                assert(31 == 30 + 1int);
                assert(Self::part3_read(address, part3, 31, events_since(histories3[1], histories3[2])));
                assert(Self::field_read(address, value, 31, events_since(histories3[1], histories3[2]))) by {
                    reveal(ClassInternals::part3_read);
                    reveal(ClassInternals::field_read);
                }
            } else if i == 32 {
                assert(histories3[2].is_prefix_of(histories3[3]));
                assert(32 == 30 + 2int);
                assert(Self::part3_read(address, part3, 32, events_since(histories3[2], histories3[3])));
                assert(Self::field_read(address, value, 32, events_since(histories3[2], histories3[3]))) by {
                    reveal(ClassInternals::part3_read);
                    reveal(ClassInternals::field_read);
                }
            } else if i == 33 {
                assert(histories3[3].is_prefix_of(histories3[4]));
                assert(33 == 30 + 3int);
                assert(Self::part3_read(address, part3, 33, events_since(histories3[3], histories3[4])));
                assert(Self::field_read(address, value, 33, events_since(histories3[3], histories3[4]))) by {
                    reveal(ClassInternals::part3_read);
                    reveal(ClassInternals::field_read);
                }
            } else if i == 34 {
                assert(histories3[4].is_prefix_of(histories3[5]));
                assert(34 == 30 + 4int);
                assert(Self::part3_read(address, part3, 34, events_since(histories3[4], histories3[5])));
                assert(Self::field_read(address, value, 34, events_since(histories3[4], histories3[5]))) by {
                    reveal(ClassInternals::part3_read);
                    reveal(ClassInternals::field_read);
                }
            } else if i == 35 {
                assert(histories3[5].is_prefix_of(histories3[6]));
                assert(35 == 30 + 5int);
                assert(Self::part3_read(address, part3, 35, events_since(histories3[5], histories3[6])));
                assert(Self::field_read(address, value, 35, events_since(histories3[5], histories3[6]))) by {
                    reveal(ClassInternals::part3_read);
                    reveal(ClassInternals::field_read);
                }
            } else if i == 36 {
                assert(histories3[6].is_prefix_of(histories3[7]));
                assert(36 == 30 + 6int);
                assert(Self::part3_read(address, part3, 36, events_since(histories3[6], histories3[7])));
                assert(Self::field_read(address, value, 36, events_since(histories3[6], histories3[7]))) by {
                    reveal(ClassInternals::part3_read);
                    reveal(ClassInternals::field_read);
                }
            } else if i == 37 {
                assert(histories3[7].is_prefix_of(histories3[8]));
                assert(37 == 30 + 7int);
                assert(Self::part3_read(address, part3, 37, events_since(histories3[7], histories3[8])));
                assert(Self::field_read(address, value, 37, events_since(histories3[7], histories3[8]))) by {
                    reveal(ClassInternals::part3_read);
                    reveal(ClassInternals::field_read);
                }
            } else if i == 38 {
                assert(histories3[8].is_prefix_of(histories3[9]));
                assert(38 == 30 + 8int);
                assert(Self::part3_read(address, part3, 38, events_since(histories3[8], histories3[9])));
                assert(Self::field_read(address, value, 38, events_since(histories3[8], histories3[9]))) by {
                    reveal(ClassInternals::part3_read);
                    reveal(ClassInternals::field_read);
                }
            } else if i == 39 {
                assert(histories3[9].is_prefix_of(histories3[10]));
                assert(39 == 30 + 9int);
                assert(Self::part3_read(address, part3, 39, events_since(histories3[9], histories3[10])));
                assert(Self::field_read(address, value, 39, events_since(histories3[9], histories3[10]))) by {
                    reveal(ClassInternals::part3_read);
                    reveal(ClassInternals::field_read);
                }
            }
        }
        Self::lemma_reads_fields(address, value, histories);
    }
}

impl Deserialize for ClassInternals {
    const NUM_BYTES: usize = 264;

    const ALIGNMENT: usize = 8;

    open spec fn layout() -> FieldLayout {
        FieldLayout { num_bytes: 264, alignment: 8 }
    }

    proof fn lemma_layout() {
        lemma_small_powers_of_two();
    }

    /// The fields are read in declaration order, each at the end of the one
    /// before it rounded up to its own alignment. The first field that cannot
    /// be read ends the reading; its error is the outcome, wrapped in a
    /// context that names the field.
    open spec fn decodes(address: Address, events: Seq<ReadEvent>, outcome: Result<Self, Error>) -> bool {
        match outcome {
            Ok(value) => Self::reads_fields(address, events, value),
            Err(error) => Self::fails_at_field(address, events, error),
        }
    }

    fn deserialize<M: MemoryReader>(reader: &mut M, address: Address) -> (r: Result<Self, Error>) {
        let ghost h0 = reader.history();
        let mut cursor = FieldCursor::new(address);
        proof {
            Self::lemma_fields();
            lemma_no_events(h0);
            assert(Self::end_before(address, 0) == address@);
        }
        let (part0, Ghost(histories0)) = match Self::read_part0(reader, &mut cursor, Ghost(address)) {
            Ok(read) => read,
            Err(error) => {
                proof {
                    lemma_fails_later(h0, h0, reader.history());
                    let before = events_since(h0, h0).len() as int;
                    let (index, cut) = choose|index: int, cut: int|
                        0 <= index < 40 && 0 <= cut <= events_since(h0, reader.history()).len() && #[trigger] Self::field_fails(
                            address,
                            index,
                            events_since(h0, reader.history()).skip(cut),
                            error,
                        );
                    assert(events_since(h0, reader.history()).skip(before + cut) =~= events_since(h0, reader.history()).skip(cut));
                    assert(Self::field_fails(address, index, events_since(h0, reader.history()).skip(before + cut), error));
                    assert(Self::fails_at_field(address, events_since(h0, reader.history()), error));
                }
                return Err(error);
            },
        };
        let ghost h1 = reader.history();
        proof {
            lemma_prefix_trans(h0, h0, h1);
        }
        let (part1, Ghost(histories1)) = match Self::read_part1(reader, &mut cursor, Ghost(address)) {
            Ok(read) => read,
            Err(error) => {
                proof {
                    lemma_fails_later(h0, h1, reader.history());
                    let before = events_since(h0, h1).len() as int;
                    let (index, cut) = choose|index: int, cut: int|
                        0 <= index < 40 && 0 <= cut <= events_since(h1, reader.history()).len() && #[trigger] Self::field_fails(
                            address,
                            index,
                            events_since(h1, reader.history()).skip(cut),
                            error,
                        );
                    assert(events_since(h0, reader.history()).skip(before + cut) =~= events_since(h1, reader.history()).skip(cut));
                    assert(Self::field_fails(address, index, events_since(h0, reader.history()).skip(before + cut), error));
                    assert(Self::fails_at_field(address, events_since(h0, reader.history()), error));
                }
                return Err(error);
            },
        };
        let ghost h2 = reader.history();
        proof {
            lemma_prefix_trans(h0, h1, h2);
        }
        let (part2, Ghost(histories2)) = match Self::read_part2(reader, &mut cursor, Ghost(address)) {
            Ok(read) => read,
            Err(error) => {
                proof {
                    lemma_fails_later(h0, h2, reader.history());
                    let before = events_since(h0, h2).len() as int;
                    let (index, cut) = choose|index: int, cut: int|
                        0 <= index < 40 && 0 <= cut <= events_since(h2, reader.history()).len() && #[trigger] Self::field_fails(
                            address,
                            index,
                            events_since(h2, reader.history()).skip(cut),
                            error,
                        );
                    assert(events_since(h0, reader.history()).skip(before + cut) =~= events_since(h2, reader.history()).skip(cut));
                    assert(Self::field_fails(address, index, events_since(h0, reader.history()).skip(before + cut), error));
                    assert(Self::fails_at_field(address, events_since(h0, reader.history()), error));
                }
                return Err(error);
            },
        };
        let ghost h3 = reader.history();
        proof {
            lemma_prefix_trans(h0, h2, h3);
        }
        let (part3, Ghost(histories3)) = match Self::read_part3(reader, &mut cursor, Ghost(address)) {
            Ok(read) => read,
            Err(error) => {
                proof {
                    lemma_fails_later(h0, h3, reader.history());
                    let before = events_since(h0, h3).len() as int;
                    let (index, cut) = choose|index: int, cut: int|
                        0 <= index < 40 && 0 <= cut <= events_since(h3, reader.history()).len() && #[trigger] Self::field_fails(
                            address,
                            index,
                            events_since(h3, reader.history()).skip(cut),
                            error,
                        );
                    assert(events_since(h0, reader.history()).skip(before + cut) =~= events_since(h3, reader.history()).skip(cut));
                    assert(Self::field_fails(address, index, events_since(h0, reader.history()).skip(before + cut), error));
                    assert(Self::fails_at_field(address, events_since(h0, reader.history()), error));
                }
                return Err(error);
            },
        };
        let ghost h4 = reader.history();
        proof {
            lemma_prefix_trans(h0, h3, h4);
        }
        let value = Self {
            element_class: part0.field0,
            cast_class: part0.field1,
            supertypes: part0.field2,
            idepth: part0.field3,
            rank: part0.field4,
            instance_size: part0.field5,
            _bitfields_group_1: part0.field6,
            min_align: part0.field7,
            _bitfields_group_2: part0.field8,
            parent: part0.field9,
            nested_in: part1.field10,
            image: part1.field11,
            name: part1.field12,
            name_space: part1.field13,
            type_token: part1.field14,
            vtable_size: part1.field15,
            interface_count: part1.field16,
            interface_id: part1.field17,
            max_interface_id: part1.field18,
            interface_offsets_count: part1.field19,
            interfaces_packed: part2.field20,
            interface_offsets_packed: part2.field21,
            interface_bitmap: part2.field22,
            interfaces: part2.field23,
            sizes: part2.field24,
            fields: part2.field25,
            methods: part2.field26,
            this_arg: part2.field27,
            byval_arg: part2.field28,
            gc_descr: part2.field29,
            runtime_info: part3.field30,
            vtable: part3.field31,
            infrequent_data: part3.field32,
            unity_user_data: part3.field33,
            flags: part3.field34,
            first_method_idx: part3.field35,
            first_field_idx: part3.field36,
            method_count: part3.field37,
            field_count: part3.field38,
            next_class_cache: part3.field39,
        };
        proof {
            Self::lemma_parts_read(address, value, part0, histories0, part1, histories1, part2, histories2, part3, histories3);
        }
        Ok(value)
    }
}

/// The text of the error for a class whose root domain has no table.
pub open spec fn no_root_domain_text(max_domain: u16) -> Seq<char> {
    "max_domain ["@ + decimal_text(max_domain as nat) + "] is less than MONO_ROOT_DOMAIN ["@ + decimal_text(
        MONO_ROOT_DOMAIN as nat,
    ) + "]"@
}

/// The table that was read eagerly, seen from the outcome of reading a class's
/// table.
pub open spec fn eager_vtable(outcome: Result<Option<MonoVTable>, Error>) -> Result<Eager<Ptr<MonoVTable>>, Error>
    recommends
        !(outcome matches Ok(None)),
{
    match outcome {
        Ok(Some(vtable)) => Ok(Eager { value: vtable }),
        Ok(None) => arbitrary(),
        Err(error) => Err(error),
    }
}

impl MonoClassField {
    /// The pointer to the class that the field belongs to.
    pub fn parent_ptr(&self) -> (r: Ptr<Class>)
        ensures
            r.target() == self.parent,
    {
        Ptr::new(self.parent)
    }
}

/// The typed pointer for an address that may be absent.
pub fn optional_ptr<T>(address: Option<Address>) -> (r: Option<Ptr<T>>)
    ensures
        address is None <==> r is None,
        r matches Some(pointer) ==> address == Some(pointer.target()),
{
    match address {
        Some(address) => Some(Ptr::new(address)),
        None => None,
    }
}

impl ClassInternals {
    /// The pointer to the class that this class derives from, if any.
    pub fn parent_ptr(&self) -> (r: Option<Ptr<Class>>)
        ensures
            self.parent is None <==> r is None,
            r matches Some(pointer) ==> self.parent == Some(pointer.target()),
    {
        optional_ptr(self.parent)
    }

    /// The pointer to the class that this class is nested in, if any.
    pub fn nested_in_ptr(&self) -> (r: Option<Ptr<Class>>)
        ensures
            self.nested_in is None <==> r is None,
            r matches Some(pointer) ==> self.nested_in == Some(pointer.target()),
    {
        optional_ptr(self.nested_in)
    }

    /// The pointer to the image that the class was loaded from, if any.
    pub fn image_ptr(&self) -> (r: Option<Ptr<Image>>)
        ensures
            self.image is None <==> r is None,
            r matches Some(pointer) ==> self.image == Some(pointer.target()),
    {
        optional_ptr(self.image)
    }

    /// The pointer to the class that follows this one in its bucket of the
    /// image's class cache, if any.
    pub fn next_class_cache_ptr(&self) -> (r: Option<Ptr<Class>>)
        ensures
            self.next_class_cache is None <==> r is None,
            r matches Some(pointer) ==> self.next_class_cache == Some(pointer.target()),
    {
        optional_ptr(self.next_class_cache)
    }

    /// What reading the table of the root domain does. A class without
    /// runtime information has no table, and nothing is read. A class whose
    /// domains do not reach the root domain is in no usable state, and
    /// nothing is read. Else the root domain's entry is read and followed.
    pub open spec fn reads_vtable(&self, events: Seq<ReadEvent>, outcome: Result<Option<MonoVTable>, Error>) -> bool {
        match self.runtime_info.value {
            None => events.len() == 0 && outcome == Ok::<Option<MonoVTable>, Error>(None),
            Some(info) => if info.max_domain <= MONO_ROOT_DOMAIN {
                &&& events.len() == 0
                &&& outcome matches Err(Error::InvalidStateError(text))
                &&& text@ == no_root_domain_text(info.max_domain)
            } else {
                &&& !(outcome matches Ok(None))
                &&& element_step::<Eager<Ptr<MonoVTable>>>(
                    info.domain_vtables.target(),
                    MONO_ROOT_DOMAIN as int,
                    events,
                    eager_vtable(outcome),
                )
            },
        }
    }

    /// Reads the class's table for the root domain, if the class has one.
    pub fn deserialize_vtable<M: MemoryReader>(&self, reader: &mut M) -> (r: Result<Option<MonoVTable>, Error>)
        ensures
            old(reader).history().is_prefix_of(final(reader).history()),
            self.reads_vtable(events_since(old(reader).history(), final(reader).history()), r),
    {
        proof {
            lemma_no_events(reader.history());
        }
        let runtime_info = match &self.runtime_info.value {
            Some(runtime_info) => runtime_info,
            None => {
                return Ok(None);
            },
        };
        if runtime_info.max_domain as usize <= MONO_ROOT_DOMAIN {
            Err(
                Error::InvalidStateError(
                    String::from_str("max_domain [").concat(
                        decimal_string(runtime_info.max_domain as usize).as_str(),
                    ).concat("] is less than MONO_ROOT_DOMAIN [").concat(
                        decimal_string(MONO_ROOT_DOMAIN).as_str(),
                    ).concat("]"),
                ),
            )
        } else {
            match runtime_info.domain_vtables.nth_element(reader, MONO_ROOT_DOMAIN) {
                Ok(entry) => Ok(Some(entry.value)),
                Err(error) => Err(error),
            }
        }
    }
}

/// A class of the other process, with its fields and the place of its static
/// data.
pub struct Class {
    pub internals: ClassInternals,
    _vtable: Option<MonoVTable>,
    fields: Vec<MonoClassField>,
    static_field_data: Option<Address>,
}

/// The description that is wrapped around a failure to read the class's table.
pub open spec fn vtable_context_text() -> Seq<char> {
    "vtable"@
}

/// The description that is wrapped around a failure to read field `index`.
pub open spec fn field_context(index: nat) -> Seq<char> {
    "fields."@ + decimal_text(index)
}

/// The text of the error for a class that has no static data.
pub open spec fn no_static_data_text() -> Seq<char> {
    "No static field data"@
}

/// The text of the error for a field that the class does not have.
pub open spec fn no_such_field_text(field: Seq<char>, class: Seq<char>) -> Seq<char> {
    "Field \""@ + field + "\" does not exist on class \""@ + class + "\""@
}

/// The index of the last of the first `count` of `fields` that has the name
/// `name`, if any has.
pub open spec fn last_named(fields: Seq<MonoClassField>, count: int, name: Seq<char>) -> Option<int>
    decreases count,
{
    if count <= 0 {
        None
    } else if fields[count - 1].name@ == name {
        Some(count - 1)
    } else {
        last_named(fields, count - 1, name)
    }
}

impl Class {
    /// The class as it is laid out.
    pub closed spec fn spec_internals(&self) -> ClassInternals {
        self.internals
    }

    /// The class's table for the root domain, if the class has one.
    pub closed spec fn spec_vtable(&self) -> Option<MonoVTable> {
        self._vtable
    }

    /// The fields of the class, in the order of their declaration.
    pub closed spec fn spec_fields(&self) -> Seq<MonoClassField> {
        self.fields@
    }

    /// Where the data of the class's static fields begins, if the class has
    /// a table.
    pub closed spec fn spec_static_field_data(&self) -> Option<Address> {
        self.static_field_data
    }

    /// What reading the place of the static data does, for a class with the
    /// table `vtable`: the entry after the last entry of the table is read.
    /// A class without a table has no static data, and nothing is read.
    pub open spec fn reads_static_data(
        internals: ClassInternals,
        vtable: Option<MonoVTable>,
        events: Seq<ReadEvent>,
        outcome: Result<Option<Address>, Error>,
    ) -> bool {
        match vtable {
            None => events.len() == 0 && outcome == Ok::<Option<Address>, Error>(None),
            Some(table) => if internals.vtable_size < 0 {
                events.len() == 0 && outcome matches Err(Error::IntConversionError(_))
            } else {
                &&& !(outcome matches Ok(None))
                &&& element_step::<Address>(
                    table.vtable.target(),
                    internals.vtable_size as int,
                    events,
                    crate::deserialize::lazy::some_outcome(outcome),
                )
            },
        }
    }

    /// What each of the four parts of reading a class did, for the parts of
    /// `class`: the class as it is laid out, its table, its fields, and the
    /// place of its static data.
    pub open spec fn parts_read(address: Address, class: Class) -> spec_fn(int, Seq<ReadEvent>) -> bool {
        |part: int, events: Seq<ReadEvent>|
            if part == 0 {
                ClassInternals::decodes(address, events, Ok(class.spec_internals()))
            } else if part == 1 {
                class.spec_internals().reads_vtable(events, Ok(class.spec_vtable()))
            } else if part == 2 {
                range_step::<MonoClassField>(
                    class.spec_internals().fields.target(),
                    class.spec_internals().field_count as int,
                    events,
                    Ok(class.spec_fields()),
                )
            } else {
                Self::reads_static_data(
                    class.spec_internals(),
                    class.spec_vtable(),
                    events,
                    Ok(class.spec_static_field_data()),
                )
            }
    }

    /// `events` are the reading of the four parts of `class`, one after the
    /// other.
    pub open spec fn reads_class(address: Address, events: Seq<ReadEvent>, class: Class) -> bool {
        exists|cuts: Seq<int>| #[trigger]
            stretches(4, cuts, events, Self::parts_read(address, class)) && cuts.last() == events.len()
    }

    /// What the reading of a part after the first did to fail with `error`,
    /// for a class that is laid out as `internals`. A failure to read the
    /// table or a field is wrapped in a context that names it.
    pub open spec fn part_fails(internals: ClassInternals, events: Seq<ReadEvent>, error: Error) -> bool {
        ||| error matches Error::WithContext(cause, text) && text@ == vtable_context_text()
            && internals.reads_vtable(events, Err(*cause))
        ||| exists|fields: Seq<MonoClassField>, cuts: Seq<int>|
            {
                &&& fields.len() < internals.field_count
                &&& #[trigger] elements_read::<MonoClassField>(internals.fields.target(), fields, cuts, events)
                &&& error matches Error::WithContext(cause, text)
                &&& text@ == field_context(fields.len())
                &&& element_step::<MonoClassField>(
                    internals.fields.target(),
                    fields.len() as int,
                    events.skip(cuts.last()),
                    Err(*cause),
                )
            }
        ||| exists|vtable: Option<MonoVTable>| #[trigger]
            Self::reads_static_data(internals, vtable, events, Err(error))
    }

    /// The reading ended in a failure: of the class as it is laid out, or,
    /// after that was read with the first `cut` requests, of a later part,
    /// whose requests are the last of `events`.
    pub open spec fn fails_to_read(address: Address, events: Seq<ReadEvent>, error: Error) -> bool {
        ||| ClassInternals::decodes(address, events, Err(error))
        ||| exists|internals: ClassInternals, cut: int, later: int|
            {
                &&& 0 <= cut <= later <= events.len()
                &&& #[trigger] ClassInternals::decodes(address, events.take(cut), Ok(internals))
                &&& #[trigger] Self::part_fails(internals, events.skip(later), error)
            }
    }

    /// Where the static field `name` lies. Of several fields with one name,
    /// the last counts.
    pub open spec fn static_field_place(&self, name: Seq<char>, outcome: Result<Address, Error>) -> bool {
        match self.spec_static_field_data() {
            None => outcome matches Err(Error::InvalidStateError(text)) && text@ == no_static_data_text(),
            Some(data) => match last_named(self.spec_fields(), self.spec_fields().len() as int, name) {
                None => outcome matches Err(Error::InvalidStateError(text)) && text@ == no_such_field_text(
                    name,
                    self.spec_internals().name@,
                ),
                Some(index) => {
                    let offset = self.spec_fields()[index].offset;
                    if offset < 0 {
                        outcome matches Err(Error::IntConversionError(_))
                    } else if data@ + offset > usize::MAX {
                        outcome == Err::<Address, Error>(Error::AddressOverflowError(data))
                    } else {
                        outcome matches Ok(place) && place@ == data@ + offset
                    }
                },
            },
        }
    }

    /// The address of the static field `name`: the place of the class's
    /// static data, moved on by the field's offset.
    pub fn get_static_field_address(&self, name: &str) -> (r: Result<Address, Error>)
        ensures
            self.static_field_place(name@, r),
    {
        let static_field_data = match self.static_field_data {
            Some(data) => data,
            None => {
                return Err(Error::InvalidStateError(String::from_str("No static field data")));
            },
        };
        let wanted = String::from_str(name);
        let mut i: usize = self.fields.len();
        while i > 0
            invariant
                0 <= i <= self.fields.len(),
                wanted@ == name@,
                self.static_field_data == Some(static_field_data),
                last_named(self.fields@, self.fields@.len() as int, name@) == last_named(
                    self.fields@,
                    i as int,
                    name@,
                ),
            decreases i,
        {
            i -= 1;
            if self.fields[i].name == wanted {
                assert(last_named(self.fields@, i + 1, name@) == Some(i as int));
                assert(self.spec_fields()[i as int].offset == self.fields@[i as int].offset);
                let offset = match usize::try_from(self.fields[i].offset) {
                    Ok(offset) => offset,
                    Err(error) => {
                        return Err(Error::IntConversionError(error));
                    },
                };
                return match static_field_data.checked_add(offset) {
                    Some(place) => Ok(place),
                    None => Err(Error::AddressOverflowError(static_field_data)),
                };
            }
        }
        Err(
            Error::InvalidStateError(
                String::from_str("Field \"").concat(name).concat("\" does not exist on class \"").concat(
                    self.internals.name.as_str(),
                ).concat("\""),
            ),
        )
    }

    /// Reads the header of the object that the static field `name` holds.
    pub fn get_static_field_object<'a, M: MemoryReader>(&'a self, reader: &mut M, name: &str) -> (r: Result<
        Object<'a>,
        Error,
    >)
        ensures
            old(reader).history().is_prefix_of(final(reader).history()),
            ({
                let events = events_since(old(reader).history(), final(reader).history());
                exists|place: Result<Address, Error>| #[trigger]
                    self.static_field_place(name@, place) && match place {
                        Err(error) => events.len() == 0 && r == Err::<Object<'a>, Error>(error),
                        Ok(address) => match r {
                            Ok(object) => object.class == self && ObjectInternals::decodes(
                                address,
                                events,
                                Ok(object.internals),
                            ),
                            Err(error) => ObjectInternals::decodes(address, events, Err(error)),
                        },
                    }
            }),
    {
        proof {
            lemma_no_events(reader.history());
        }
        let place = self.get_static_field_address(name);
        match place {
            Err(error) => Err(error),
            Ok(address) => match ObjectInternals::deserialize(reader, address) {
                Ok(internals) => {
                    assert(self.static_field_place(name@, Ok(address)));
                    Ok(Object { internals, class: self })
                },
                Err(error) => {
                    assert(self.static_field_place(name@, Ok(address)));
                    Err(error)
                },
            },
        }
    }
}

impl Deserialize for Class {
    const NUM_BYTES: usize = 264;

    const ALIGNMENT: usize = 8;

    open spec fn layout() -> FieldLayout {
        FieldLayout { num_bytes: 264, alignment: 8 }
    }

    proof fn lemma_layout() {
        lemma_small_powers_of_two();
    }

    /// The class is read as it is laid out; then its table for the root
    /// domain, its fields in the order of their declaration, and the place
    /// of its static data. The first part that cannot be read ends the
    /// reading.
    open spec fn decodes(address: Address, events: Seq<ReadEvent>, outcome: Result<Self, Error>) -> bool {
        match outcome {
            Ok(class) => Self::reads_class(address, events, class),
            Err(error) => Self::fails_to_read(address, events, error),
        }
    }

    fn deserialize<M: MemoryReader>(reader: &mut M, address: Address) -> (r: Result<Self, Error>) {
        let ghost h0 = reader.history();
        proof {
            lemma_no_events(h0);
        }
        let internals = match ClassInternals::deserialize(reader, address) {
            Ok(internals) => internals,
            Err(error) => {
                return Err(error);
            },
        };
        let ghost h1 = reader.history();
        proof {
            assert(events_since(h0, h1).take(events_since(h0, h1).len() as int) =~= events_since(h0, h1));
        }
        let vtable = match internals.deserialize_vtable(reader) {
            Ok(vtable) => vtable,
            Err(cause) => {
                let error = cause.with_context(String::from_str("vtable"));
                proof {
                    lemma_events_chain(h0, h1, reader.history());
                    let events = events_since(h0, reader.history());
                    let cut = events_since(h0, h1).len() as int;
                    assert(Class::part_fails(internals, events.skip(cut), error));
                    assert(ClassInternals::decodes(address, events.take(cut), Ok(internals)));
                }
                return Err(error);
            },
        };
        let ghost h2 = reader.history();
        proof {
            lemma_events_chain(h0, h1, h2);
        }
        let field_count = match usize::try_from(internals.field_count) {
            Ok(field_count) => field_count,
            Err(error) => {
                assert(false);
                return Err(Error::IntConversionError(error));
            },
        };
        let ghost mut cuts: Seq<int> = seq![0int];
        let mut fields: Vec<MonoClassField> = Vec::new();
        let mut index: usize = 0;
        proof {
            lemma_no_events(h2);
        }
        while index < field_count
            invariant
                0 <= index <= field_count,
                field_count == internals.field_count,
                fields@.len() == index,
                h0 == old(reader).history(),
                h0.is_prefix_of(h1),
                h1.is_prefix_of(h2),
                h2.is_prefix_of(reader.history()),
                ClassInternals::decodes(address, events_since(h0, h1), Ok(internals)),
                elements_read::<MonoClassField>(
                    internals.fields.target(),
                    fields@,
                    cuts,
                    events_since(h2, reader.history()),
                ),
                cuts.last() == events_since(h2, reader.history()).len(),
            decreases field_count - index,
        {
            let ghost before = reader.history();
            match internals.fields.nth_element(reader, index) {
                Ok(field) => {
                    proof {
                        lemma_events_chain(h2, before, reader.history());
                        lemma_segments_push(
                            fields@,
                            cuts,
                            events_since(h2, before),
                            element_read::<MonoClassField>(internals.fields.target()),
                            events_since(h2, reader.history()),
                            element_read::<MonoClassField>(internals.fields.target()),
                            field,
                        );
                        cuts = cuts.push(events_since(h2, reader.history()).len() as int);
                    }
                    fields.push(field);
                },
                Err(cause) => {
                    let error = cause.with_context(
                        String::from_str("fields.").concat(decimal_string(index).as_str()),
                    );
                    proof {
                        lemma_events_chain(h2, before, reader.history());
                        lemma_segments_extend(
                            fields@,
                            cuts,
                            events_since(h2, before),
                            element_read::<MonoClassField>(internals.fields.target()),
                            events_since(h2, reader.history()),
                            element_read::<MonoClassField>(internals.fields.target()),
                        );
                        lemma_events_chain(h0, h1, h2);
                        lemma_events_chain(h0, h2, reader.history());
                        lemma_events_chain(h0, h1, reader.history());
                        let events = events_since(h0, reader.history());
                        let cut = events_since(h0, h1).len() as int;
                        let later = events_since(h0, h2).len() as int;
                        assert(events.skip(later) == events_since(h2, reader.history()));
                        assert(elements_read::<MonoClassField>(
                            internals.fields.target(),
                            fields@,
                            cuts,
                            events.skip(later),
                        ));
                        assert(Class::part_fails(internals, events.skip(later), error));
                        assert(ClassInternals::decodes(address, events.take(cut), Ok(internals)));
                    }
                    return Err(error);
                },
            }
            index += 1;
        }
        let ghost h3 = reader.history();
        proof {
            assert(elements_read::<MonoClassField>(internals.fields.target(), fields@, cuts, events_since(h2, h3)));
            assert(range_step::<MonoClassField>(
                internals.fields.target(),
                internals.field_count as int,
                events_since(h2, h3),
                Ok(fields@),
            ));
            lemma_events_chain(h0, h2, h3);
            lemma_events_chain(h0, h1, h3);
            lemma_no_events(h3);
        }
        let static_field_data: Result<Option<Address>, Error> = match &vtable {
            Some(the_vtable) => match usize::try_from(internals.vtable_size) {
                Ok(vtable_size) => match the_vtable.vtable.nth_element(reader, vtable_size) {
                    Ok(data) => Ok(Some(data)),
                    Err(error) => Err(error),
                },
                Err(error) => Err(Error::IntConversionError(error)),
            },
            None => Ok(None),
        };
        let ghost h4 = reader.history();
        proof {
            lemma_events_chain(h0, h3, h4);
            lemma_events_chain(h0, h1, h4);
            assert(Class::reads_static_data(internals, vtable, events_since(h3, h4), static_field_data));
        }
        let static_field_data = match static_field_data {
            Ok(data) => data,
            Err(error) => {
                proof {
                    let events = events_since(h0, h4);
                    let cut = events_since(h0, h1).len() as int;
                    let later = events_since(h0, h3).len() as int;
                    assert(events.skip(later) == events_since(h3, h4));
                    assert(Class::part_fails(internals, events.skip(later), error));
                    assert(ClassInternals::decodes(address, events.take(cut), Ok(internals)));
                }
                return Err(error);
            },
        };
        let class = Self { internals, _vtable: vtable, fields, static_field_data };
        proof {
            let step = Class::parts_read(address, class);
            let ghost mut parts = seq![0int];
            lemma_stretches_empty(events_since(h0, h0), step);
            assert(events_since(h0, h1).skip(0) =~= events_since(h0, h1));
            assert(step(0, events_since(h0, h1).skip(events_since(h0, h0).len() as int)));
            lemma_stretches_push(0, parts, events_since(h0, h0), events_since(h0, h1), step);
            parts = parts.push(events_since(h0, h1).len() as int);
            assert(step(1, events_since(h0, h2).skip(events_since(h0, h1).len() as int)));
            lemma_stretches_push(1, parts, events_since(h0, h1), events_since(h0, h2), step);
            parts = parts.push(events_since(h0, h2).len() as int);
            assert(step(2, events_since(h0, h3).skip(events_since(h0, h2).len() as int)));
            lemma_stretches_push(2, parts, events_since(h0, h2), events_since(h0, h3), step);
            parts = parts.push(events_since(h0, h3).len() as int);
            assert(step(3, events_since(h0, h4).skip(events_since(h0, h3).len() as int)));
            lemma_stretches_push(3, parts, events_since(h0, h3), events_since(h0, h4), step);
            parts = parts.push(events_since(h0, h4).len() as int);
            assert(stretches(4, parts, events_since(h0, h4), Class::parts_read(address, class)));
            assert(Class::reads_class(address, events_since(h0, h4), class));
        }
        Ok(class)
    }
}

/// The address that an optional address stands for in memory: zero for none.
pub open spec fn raw_of(address: Option<Address>) -> usize {
    match address {
        Some(address) => address.0,
        None => 0,
    }
}

impl Linked for Class {
    /// The class that follows in the bucket of the class cache.
    open spec fn spec_next(&self) -> usize {
        raw_of(self.spec_internals().next_class_cache)
    }

    fn next(&self) -> (r: usize) {
        match self.internals.next_class_cache {
            Some(address) => address.raw(),
            None => 0,
        }
    }

    open spec fn reads(address: Address, events: Seq<ReadEvent>, outcome: Result<Self, Error>) -> bool {
        <Class as Deserialize>::decodes(address, events, outcome)
    }

    fn read<M: MemoryReader>(reader: &mut M, address: Address) -> (r: Result<Self, Error>) {
        Class::deserialize(reader, address)
    }
}

impl Class {
    /// The token of the class's type definition.
    pub fn type_token(&self) -> (r: u32)
        ensures
            r == self.spec_internals().type_token,
    {
        self.internals.type_token
    }
}

} // verus!

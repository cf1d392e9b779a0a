use crate::deserialize::arrayptr::element_step;
use crate::deserialize::cursor::{field_context_text, field_step, FieldCursor};
use crate::deserialize::deserializetrait::{lemma_small_powers_of_two, Deserialize};
use crate::deserialize::error::Error;
use crate::deserialize::layout::{end_after, fields_aligned, FieldLayout};
use crate::deserialize::linkedlist::{
    lemma_node_read_push, node_address, node_read, nodes_read, Linked, MAX_LIST_LENGTH,
};
use crate::deserialize::postsizedarray::{ElementCount, PostSizedArray};
use crate::deserialize::segments::{
    lemma_prefix_trans, lemma_segments_extend, lemma_segments_push, lemma_stretches_chain, stretches,
};
use crate::memory::address::Address;
use crate::memory::reader::{events_since, lemma_events_chain, lemma_no_events, MemoryReader, ReadEvent};
use vstd::prelude::*;
use vstd::string::StringExecFns;

verus! {

/// Trait for keys that can be looked up: they have the other process's hash,
/// and can be told apart.
pub trait Key: crate::mono::hash::Hash {
    /// Whether this key and `other` are the same key.
    spec fn same_key(&self, other: &Self) -> bool;

    /// Whether this key and `other` are the same key.
    fn is_key(&self, other: &Self) -> (r: bool)
        ensures
            r == self.same_key(other),
    ;
}

impl Key for String {
    open spec fn same_key(&self, other: &Self) -> bool {
        self@ == other@
    }

    fn is_key(&self, other: &Self) -> (r: bool) {
        *self == *other
    }
}

/// One entry of a bucket's chain: a key, its value, and the address of the
/// entry that follows, or zero after the last entry.
pub struct Entry<K: Deserialize, V: Deserialize> {
    pub key: K,
    pub value: V,
    pub next: usize,
}

impl<K: Deserialize, V: Deserialize> Entry<K, V> {
    /// The layout of field `index`, in declaration order.
    pub open spec fn field_layout(index: int) -> FieldLayout {
        if index == 0 {
            FieldLayout::spec_of::<K>()
        } else if index == 1 {
            FieldLayout::spec_of::<V>()
        } else {
            FieldLayout::spec_of::<usize>()
        }
    }

    /// The layouts of the fields, in declaration order.
    pub open spec fn fields() -> Seq<FieldLayout> {
        Seq::new(3, |index: int| Self::field_layout(index))
    }

    /// Where the fields before field `index` end, in a structure at `address`.
    pub open spec fn end_before(address: Address, index: int) -> int {
        end_after(address@, Self::fields(), index)
    }

    /// What the reading of field `index` did to arrive at that field of `value`.
    /// Kept out of sight of the prover until it is revealed.
    #[verifier::opaque]
    pub open spec fn field_read(address: Address, value: Self, index: int, events: Seq<ReadEvent>) -> bool {
        if index == 0 {
            field_step::<K>(
                address,
                Self::end_before(address, 0),
                field_context_text("Entry"@, "key"@),
                events,
                Ok(value.key),
            )
        } else if index == 1 {
            field_step::<V>(
                address,
                Self::end_before(address, 1),
                field_context_text("Entry"@, "value"@),
                events,
                Ok(value.value),
            )
        } else {
            field_step::<usize>(
                address,
                Self::end_before(address, 2),
                field_context_text("Entry"@, "next"@),
                events,
                Ok(value.next),
            )
        }
    }

    /// What the reading of field `index` did to fail with `error`. Kept out of
    /// sight of the prover until it is revealed.
    #[verifier::opaque]
    pub open spec fn field_fails(address: Address, index: int, events: Seq<ReadEvent>, error: Error) -> bool {
        if index == 0 {
            field_step::<K>(
                address,
                Self::end_before(address, 0),
                field_context_text("Entry"@, "key"@),
                events,
                Err(error),
            )
        } else if index == 1 {
            field_step::<V>(
                address,
                Self::end_before(address, 1),
                field_context_text("Entry"@, "value"@),
                events,
                Err(error),
            )
        } else {
            field_step::<usize>(
                address,
                Self::end_before(address, 2),
                field_context_text("Entry"@, "next"@),
                events,
                Err(error),
            )
        }
    }

    /// What the reading of each field did, for the fields of `value`.
    pub open spec fn fields_read(address: Address, value: Self) -> spec_fn(int, Seq<ReadEvent>) -> bool {
        |index: int, events: Seq<ReadEvent>| Self::field_read(address, value, index, events)
    }

    /// The fields of `value` were read in declaration order, each at the end of
    /// the one before it rounded up to its own alignment, with exactly the
    /// requests in `events`.
    pub open spec fn reads_fields(address: Address, events: Seq<ReadEvent>, value: Self) -> bool {
        exists|cuts: Seq<int>| #[trigger]
            stretches(3, cuts, events, Self::fields_read(address, value)) && cuts.last() == events.len()
    }

    /// The reading ended with a field that could not be read: `error` is that
    /// field's error, wrapped in a context that names the field.
    pub open spec fn fails_at_field(address: Address, events: Seq<ReadEvent>, error: Error) -> bool {
        exists|index: int, cut: int|
            0 <= index < 3 && 0 <= cut <= events.len() && #[trigger] Self::field_fails(
                address,
                index,
                events.skip(cut),
                error,
            )
    }

    /// When a history grew through one state for each field, and what was added
    /// from each state to the next is the reading of that field of `value`, the
    /// whole of what was added is the reading of `value`.
    pub proof fn lemma_reads_fields(address: Address, value: Self, histories: Seq<Seq<ReadEvent>>)
        requires
            histories.len() == 4,
            forall|i: int|
                0 <= i < 3 ==> (#[trigger] histories[i]).is_prefix_of(histories[i + 1]) && Self::field_read(
                    address,
                    value,
                    i,
                    events_since(histories[i], histories[i + 1]),
                ),
        ensures
            Self::reads_fields(address, events_since(histories[0], histories[3]), value),
    {
        let step = Self::fields_read(address, value);
        assert forall|i: int| 0 <= i < 3 implies (#[trigger] histories[i]).is_prefix_of(histories[i + 1]) && step(
            i,
            events_since(histories[i], histories[i + 1]),
        ) by {
            assert(Self::field_read(address, value, i, events_since(histories[i], histories[i + 1])));
        }
        let cuts = lemma_stretches_chain(3, histories, step);
        assert(stretches(3, cuts, events_since(histories[0], histories[3]), Self::fields_read(address, value)));
    }

    /// The size and alignment of the structure are those of its fields laid
    /// out in declaration order.
    pub proof fn lemma_fields()
        ensures
            fields_aligned(Self::fields()),
            Self::fields().len() == 3,
    {
        <K>::lemma_layout();
        <V>::lemma_layout();
        <usize>::lemma_layout();
    }
}
impl<K: Deserialize, V: Deserialize> Linked for Entry<K, V> {
    open spec fn spec_next(&self) -> usize {
        self.next
    }

    fn next(&self) -> (r: usize) {
        self.next
    }

    /// The fields are read in declaration order, each at the end of the one
    /// before it rounded up to its own alignment. The first field that cannot
    /// be read ends the reading; its error is the outcome, wrapped in a
    /// context that names the field.
    open spec fn reads(address: Address, events: Seq<ReadEvent>, outcome: Result<Self, Error>) -> bool {
        match outcome {
            Ok(value) => Self::reads_fields(address, events, value),
            Err(error) => Self::fails_at_field(address, events, error),
        }
    }

    fn read<M: MemoryReader>(reader: &mut M, address: Address) -> (r: Result<Self, Error>) {
        let ghost h0 = reader.history();
        let mut cursor = FieldCursor::new(address);
        proof {
            Self::lemma_fields();
            lemma_no_events(h0);
            assert(Self::end_before(address, 0) == address@);
        }
        let field0 = match cursor.field::<K, M>(reader, "Entry", "key") {
            Ok(value) => value,
            Err(error) => {
                proof {
                    lemma_events_chain(h0, h0, reader.history());
                    let cut = events_since(h0, h0).len() as int;
                    assert(Self::field_fails(address, 0, events_since(h0, reader.history()).skip(cut), error)) by {
                        reveal(Entry::field_fails);
                    }
                    assert(Self::fails_at_field(address, events_since(h0, reader.history()), error));
                }
                return Err(error);
            },
        };
        let ghost h1 = reader.history();
        proof {
            lemma_prefix_trans(h0, h0, h1);
            assert(cursor.end() == Self::end_before(address, 1));
        }
        let field1 = match cursor.field::<V, M>(reader, "Entry", "value") {
            Ok(value) => value,
            Err(error) => {
                proof {
                    lemma_events_chain(h0, h1, reader.history());
                    let cut = events_since(h0, h1).len() as int;
                    assert(Self::field_fails(address, 1, events_since(h0, reader.history()).skip(cut), error)) by {
                        reveal(Entry::field_fails);
                    }
                    assert(Self::fails_at_field(address, events_since(h0, reader.history()), error));
                }
                return Err(error);
            },
        };
        let ghost h2 = reader.history();
        proof {
            lemma_prefix_trans(h0, h1, h2);
            assert(cursor.end() == Self::end_before(address, 2));
        }
        let field2 = match cursor.field::<usize, M>(reader, "Entry", "next") {
            Ok(value) => value,
            Err(error) => {
                proof {
                    lemma_events_chain(h0, h2, reader.history());
                    let cut = events_since(h0, h2).len() as int;
                    assert(Self::field_fails(address, 2, events_since(h0, reader.history()).skip(cut), error)) by {
                        reveal(Entry::field_fails);
                    }
                    assert(Self::fails_at_field(address, events_since(h0, reader.history()), error));
                }
                return Err(error);
            },
        };
        let ghost h3 = reader.history();
        proof {
            lemma_prefix_trans(h0, h2, h3);
            assert(cursor.end() == Self::end_before(address, 3));
        }
        let value = Self { key: field0, value: field1, next: field2 };
        proof {
            let histories = Seq::new(4, |i: int|
                if i == 0 {
                    h0
                } else if i == 1 {
                    h1
                } else if i == 2 {
                    h2
                } else {
                    h3
                });
            assert forall|i: int| 0 <= i < 3 implies (#[trigger] histories[i]).is_prefix_of(histories[i + 1])
                && Self::field_read(address, value, i, events_since(histories[i], histories[i + 1])) by {
                if i == 0 {
                    assert(Self::field_read(address, value, 0, events_since(h0, h1))) by {
                        reveal(Entry::field_read);
                    }
                } else if i == 1 {
                    assert(Self::field_read(address, value, 1, events_since(h1, h2))) by {
                        reveal(Entry::field_read);
                    }
                } else if i == 2 {
                    assert(Self::field_read(address, value, 2, events_since(h2, h3))) by {
                        reveal(Entry::field_read);
                    }
                }
            }
            Self::lemma_reads_fields(address, value, histories);
        }
        Ok(value)
    }
}

/// A hash table of the other process. Decoding reads the table's header only:
/// neither the buckets nor the entries. A lookup reads the one bucket that the
/// key hashes to, and follows that bucket's chain entry by entry.
pub struct GHashTable<K: Deserialize + Key, V: Deserialize> {
    _hash_func: usize,
    _key_equal_func: usize,
    table: PostSizedArray<Option<Address>, i32>,
    _in_use: i32,
    _threshold: i32,
    _last_rehash: i32,
    _value_destroy_func: usize,
    _key_destroy_func: usize,
    key_type: std::marker::PhantomData<K>,
    value_type: std::marker::PhantomData<V>,
}

impl<K: Deserialize + Key, V: Deserialize> GHashTable<K, V> {
    /// The field `_hash_func`.
    pub closed spec fn spec_hash_func(&self) -> usize {
        self._hash_func
    }

    /// The field `_key_equal_func`.
    pub closed spec fn spec_key_equal_func(&self) -> usize {
        self._key_equal_func
    }

    /// The field `table`.
    pub closed spec fn spec_table(&self) -> PostSizedArray<Option<Address>, i32> {
        self.table
    }

    /// The field `_in_use`.
    pub closed spec fn spec_in_use(&self) -> i32 {
        self._in_use
    }

    /// The field `_threshold`.
    pub closed spec fn spec_threshold(&self) -> i32 {
        self._threshold
    }

    /// The field `_last_rehash`.
    pub closed spec fn spec_last_rehash(&self) -> i32 {
        self._last_rehash
    }

    /// The field `_value_destroy_func`.
    pub closed spec fn spec_value_destroy_func(&self) -> usize {
        self._value_destroy_func
    }

    /// The field `_key_destroy_func`.
    pub closed spec fn spec_key_destroy_func(&self) -> usize {
        self._key_destroy_func
    }

    /// The layout of field `index`, in declaration order.
    pub open spec fn field_layout(index: int) -> FieldLayout {
        if index == 0 {
            FieldLayout::spec_of::<usize>()
        } else if index == 1 {
            FieldLayout::spec_of::<usize>()
        } else if index == 2 {
            FieldLayout::spec_of::<PostSizedArray<Option<Address>, i32>>()
        } else if index == 3 {
            FieldLayout::spec_of::<i32>()
        } else if index == 4 {
            FieldLayout::spec_of::<i32>()
        } else if index == 5 {
            FieldLayout::spec_of::<i32>()
        } else if index == 6 {
            FieldLayout::spec_of::<usize>()
        } else {
            FieldLayout::spec_of::<usize>()
        }
    }

    /// The layouts of the fields, in declaration order.
    pub open spec fn fields() -> Seq<FieldLayout> {
        Seq::new(8, |index: int| Self::field_layout(index))
    }

    /// Where the fields before field `index` end, in a structure at `address`.
    pub open spec fn end_before(address: Address, index: int) -> int {
        end_after(address@, Self::fields(), index)
    }

    /// What the reading of field `index` did to arrive at that field of `value`.
    /// Kept out of sight of the prover until it is revealed.
    #[verifier::opaque]
    pub open spec fn field_read(address: Address, value: Self, index: int, events: Seq<ReadEvent>) -> bool {
        if index == 0 {
            field_step::<usize>(
                address,
                Self::end_before(address, 0),
                field_context_text("GHashTable"@, "_hash_func"@),
                events,
                Ok(value.spec_hash_func()),
            )
        } else if index == 1 {
            field_step::<usize>(
                address,
                Self::end_before(address, 1),
                field_context_text("GHashTable"@, "_key_equal_func"@),
                events,
                Ok(value.spec_key_equal_func()),
            )
        } else if index == 2 {
            field_step::<PostSizedArray<Option<Address>, i32>>(
                address,
                Self::end_before(address, 2),
                field_context_text("GHashTable"@, "table"@),
                events,
                Ok(value.spec_table()),
            )
        } else if index == 3 {
            field_step::<i32>(
                address,
                Self::end_before(address, 3),
                field_context_text("GHashTable"@, "_in_use"@),
                events,
                Ok(value.spec_in_use()),
            )
        } else if index == 4 {
            field_step::<i32>(
                address,
                Self::end_before(address, 4),
                field_context_text("GHashTable"@, "_threshold"@),
                events,
                Ok(value.spec_threshold()),
            )
        } else if index == 5 {
            field_step::<i32>(
                address,
                Self::end_before(address, 5),
                field_context_text("GHashTable"@, "_last_rehash"@),
                events,
                Ok(value.spec_last_rehash()),
            )
        } else if index == 6 {
            field_step::<usize>(
                address,
                Self::end_before(address, 6),
                field_context_text("GHashTable"@, "_value_destroy_func"@),
                events,
                Ok(value.spec_value_destroy_func()),
            )
        } else {
            field_step::<usize>(
                address,
                Self::end_before(address, 7),
                field_context_text("GHashTable"@, "_key_destroy_func"@),
                events,
                Ok(value.spec_key_destroy_func()),
            )
        }
    }

    /// What the reading of field `index` did to fail with `error`. Kept out of
    /// sight of the prover until it is revealed.
    #[verifier::opaque]
    pub open spec fn field_fails(address: Address, index: int, events: Seq<ReadEvent>, error: Error) -> bool {
        if index == 0 {
            field_step::<usize>(
                address,
                Self::end_before(address, 0),
                field_context_text("GHashTable"@, "_hash_func"@),
                events,
                Err(error),
            )
        } else if index == 1 {
            field_step::<usize>(
                address,
                Self::end_before(address, 1),
                field_context_text("GHashTable"@, "_key_equal_func"@),
                events,
                Err(error),
            )
        } else if index == 2 {
            field_step::<PostSizedArray<Option<Address>, i32>>(
                address,
                Self::end_before(address, 2),
                field_context_text("GHashTable"@, "table"@),
                events,
                Err(error),
            )
        } else if index == 3 {
            field_step::<i32>(
                address,
                Self::end_before(address, 3),
                field_context_text("GHashTable"@, "_in_use"@),
                events,
                Err(error),
            )
        } else if index == 4 {
            field_step::<i32>(
                address,
                Self::end_before(address, 4),
                field_context_text("GHashTable"@, "_threshold"@),
                events,
                Err(error),
            )
        } else if index == 5 {
            field_step::<i32>(
                address,
                Self::end_before(address, 5),
                field_context_text("GHashTable"@, "_last_rehash"@),
                events,
                Err(error),
            )
        } else if index == 6 {
            field_step::<usize>(
                address,
                Self::end_before(address, 6),
                field_context_text("GHashTable"@, "_value_destroy_func"@),
                events,
                Err(error),
            )
        } else {
            field_step::<usize>(
                address,
                Self::end_before(address, 7),
                field_context_text("GHashTable"@, "_key_destroy_func"@),
                events,
                Err(error),
            )
        }
    }

    /// What the reading of each field did, for the fields of `value`.
    pub open spec fn fields_read(address: Address, value: Self) -> spec_fn(int, Seq<ReadEvent>) -> bool {
        |index: int, events: Seq<ReadEvent>| Self::field_read(address, value, index, events)
    }

    /// The fields of `value` were read in declaration order, each at the end of
    /// the one before it rounded up to its own alignment, with exactly the
    /// requests in `events`.
    pub open spec fn reads_fields(address: Address, events: Seq<ReadEvent>, value: Self) -> bool {
        exists|cuts: Seq<int>| #[trigger]
            stretches(8, cuts, events, Self::fields_read(address, value)) && cuts.last() == events.len()
    }

    /// The reading ended with a field that could not be read: `error` is that
    /// field's error, wrapped in a context that names the field.
    pub open spec fn fails_at_field(address: Address, events: Seq<ReadEvent>, error: Error) -> bool {
        exists|index: int, cut: int|
            0 <= index < 8 && 0 <= cut <= events.len() && #[trigger] Self::field_fails(
                address,
                index,
                events.skip(cut),
                error,
            )
    }

    /// When a history grew through one state for each field, and what was added
    /// from each state to the next is the reading of that field of `value`, the
    /// whole of what was added is the reading of `value`.
    pub proof fn lemma_reads_fields(address: Address, value: Self, histories: Seq<Seq<ReadEvent>>)
        requires
            histories.len() == 9,
            forall|i: int|
                0 <= i < 8 ==> (#[trigger] histories[i]).is_prefix_of(histories[i + 1]) && Self::field_read(
                    address,
                    value,
                    i,
                    events_since(histories[i], histories[i + 1]),
                ),
        ensures
            Self::reads_fields(address, events_since(histories[0], histories[8]), value),
    {
        let step = Self::fields_read(address, value);
        assert forall|i: int| 0 <= i < 8 implies (#[trigger] histories[i]).is_prefix_of(histories[i + 1]) && step(
            i,
            events_since(histories[i], histories[i + 1]),
        ) by {
            assert(Self::field_read(address, value, i, events_since(histories[i], histories[i + 1])));
        }
        let cuts = lemma_stretches_chain(8, histories, step);
        assert(stretches(8, cuts, events_since(histories[0], histories[8]), Self::fields_read(address, value)));
    }

    /// The size and alignment of the structure are those of its fields laid
    /// out in declaration order.
    pub proof fn lemma_fields()
        ensures
            fields_aligned(Self::fields()),
            Self::fields().len() == 8,
    {
        <usize>::lemma_layout();
        <usize>::lemma_layout();
        <PostSizedArray<Option<Address>, i32>>::lemma_layout();
        <i32>::lemma_layout();
        <i32>::lemma_layout();
        <i32>::lemma_layout();
        <usize>::lemma_layout();
        <usize>::lemma_layout();
    }
}
impl<K: Deserialize + Key, V: Deserialize> Deserialize for GHashTable<K, V> {
    const NUM_BYTES: usize = 56;

    const ALIGNMENT: usize = 8;

    open spec fn layout() -> FieldLayout {
        FieldLayout { num_bytes: 56, alignment: 8 }
    }

    proof fn lemma_layout() {
        lemma_small_powers_of_two();
    }

    /// The fields are read in declaration order, each at the end of the one
    /// before it rounded up to its own alignment. The first field that cannot
    /// be read ends the reading; its error is the outcome, wrapped in a
    /// context that names the field.
    open spec fn decodes(address: Address, events: Seq<ReadEvent>, outcome: Result<Self, Error>) -> bool {
        match outcome {
            Ok(value) => Self::reads_fields(address, events, value),
            Err(error) => Self::fails_at_field(address, events, error),
        }
    }

    fn deserialize<M: MemoryReader>(reader: &mut M, address: Address) -> (r: Result<Self, Error>) {
        let ghost h0 = reader.history();
        let mut cursor = FieldCursor::new(address);
        proof {
            Self::lemma_fields();
            lemma_no_events(h0);
            assert(Self::end_before(address, 0) == address@);
        }
        let field0 = match cursor.field::<usize, M>(reader, "GHashTable", "_hash_func") {
            Ok(value) => value,
            Err(error) => {
                proof {
                    lemma_events_chain(h0, h0, reader.history());
                    let cut = events_since(h0, h0).len() as int;
                    assert(Self::field_fails(address, 0, events_since(h0, reader.history()).skip(cut), error)) by {
                        reveal(GHashTable::field_fails);
                    }
                    assert(Self::fails_at_field(address, events_since(h0, reader.history()), error));
                }
                return Err(error);
            },
        };
        let ghost h1 = reader.history();
        proof {
            lemma_prefix_trans(h0, h0, h1);
            assert(cursor.end() == Self::end_before(address, 1));
        }
        let field1 = match cursor.field::<usize, M>(reader, "GHashTable", "_key_equal_func") {
            Ok(value) => value,
            Err(error) => {
                proof {
                    lemma_events_chain(h0, h1, reader.history());
                    let cut = events_since(h0, h1).len() as int;
                    assert(Self::field_fails(address, 1, events_since(h0, reader.history()).skip(cut), error)) by {
                        reveal(GHashTable::field_fails);
                    }
                    assert(Self::fails_at_field(address, events_since(h0, reader.history()), error));
                }
                return Err(error);
            },
        };
        let ghost h2 = reader.history();
        proof {
            lemma_prefix_trans(h0, h1, h2);
            assert(cursor.end() == Self::end_before(address, 2));
        }
        let field2 = match cursor.field::<PostSizedArray<Option<Address>, i32>, M>(reader, "GHashTable", "table") {
            Ok(value) => value,
            Err(error) => {
                proof {
                    lemma_events_chain(h0, h2, reader.history());
                    let cut = events_since(h0, h2).len() as int;
                    assert(Self::field_fails(address, 2, events_since(h0, reader.history()).skip(cut), error)) by {
                        reveal(GHashTable::field_fails);
                    }
                    assert(Self::fails_at_field(address, events_since(h0, reader.history()), error));
                }
                return Err(error);
            },
        };
        let ghost h3 = reader.history();
        proof {
            lemma_prefix_trans(h0, h2, h3);
            assert(cursor.end() == Self::end_before(address, 3));
        }
        let field3 = match cursor.field::<i32, M>(reader, "GHashTable", "_in_use") {
            Ok(value) => value,
            Err(error) => {
                proof {
                    lemma_events_chain(h0, h3, reader.history());
                    let cut = events_since(h0, h3).len() as int;
                    assert(Self::field_fails(address, 3, events_since(h0, reader.history()).skip(cut), error)) by {
                        reveal(GHashTable::field_fails);
                    }
                    assert(Self::fails_at_field(address, events_since(h0, reader.history()), error));
                }
                return Err(error);
            },
        };
        let ghost h4 = reader.history();
        proof {
            lemma_prefix_trans(h0, h3, h4);
            assert(cursor.end() == Self::end_before(address, 4));
        }
        let field4 = match cursor.field::<i32, M>(reader, "GHashTable", "_threshold") {
            Ok(value) => value,
            Err(error) => {
                proof {
                    lemma_events_chain(h0, h4, reader.history());
                    let cut = events_since(h0, h4).len() as int;
                    assert(Self::field_fails(address, 4, events_since(h0, reader.history()).skip(cut), error)) by {
                        reveal(GHashTable::field_fails);
                    }
                    assert(Self::fails_at_field(address, events_since(h0, reader.history()), error));
                }
                return Err(error);
            },
        };
        let ghost h5 = reader.history();
        proof {
            lemma_prefix_trans(h0, h4, h5);
            assert(cursor.end() == Self::end_before(address, 5));
        }
        let field5 = match cursor.field::<i32, M>(reader, "GHashTable", "_last_rehash") {
            Ok(value) => value,
            Err(error) => {
                proof {
                    lemma_events_chain(h0, h5, reader.history());
                    let cut = events_since(h0, h5).len() as int;
                    assert(Self::field_fails(address, 5, events_since(h0, reader.history()).skip(cut), error)) by {
                        reveal(GHashTable::field_fails);
                    }
                    assert(Self::fails_at_field(address, events_since(h0, reader.history()), error));
                }
                return Err(error);
            },
        };
        let ghost h6 = reader.history();
        proof {
            lemma_prefix_trans(h0, h5, h6);
            assert(cursor.end() == Self::end_before(address, 6));
        }
        let field6 = match cursor.field::<usize, M>(reader, "GHashTable", "_value_destroy_func") {
            Ok(value) => value,
            Err(error) => {
                proof {
                    lemma_events_chain(h0, h6, reader.history());
                    let cut = events_since(h0, h6).len() as int;
                    assert(Self::field_fails(address, 6, events_since(h0, reader.history()).skip(cut), error)) by {
                        reveal(GHashTable::field_fails);
                    }
                    assert(Self::fails_at_field(address, events_since(h0, reader.history()), error));
                }
                return Err(error);
            },
        };
        let ghost h7 = reader.history();
        proof {
            lemma_prefix_trans(h0, h6, h7);
            assert(cursor.end() == Self::end_before(address, 7));
        }
        let field7 = match cursor.field::<usize, M>(reader, "GHashTable", "_key_destroy_func") {
            Ok(value) => value,
            Err(error) => {
                proof {
                    lemma_events_chain(h0, h7, reader.history());
                    let cut = events_since(h0, h7).len() as int;
                    assert(Self::field_fails(address, 7, events_since(h0, reader.history()).skip(cut), error)) by {
                        reveal(GHashTable::field_fails);
                    }
                    assert(Self::fails_at_field(address, events_since(h0, reader.history()), error));
                }
                return Err(error);
            },
        };
        let ghost h8 = reader.history();
        proof {
            lemma_prefix_trans(h0, h7, h8);
            assert(cursor.end() == Self::end_before(address, 8));
        }
        let value = Self { _hash_func: field0, _key_equal_func: field1, table: field2, _in_use: field3, _threshold: field4, _last_rehash: field5, _value_destroy_func: field6, _key_destroy_func: field7, key_type: std::marker::PhantomData, value_type: std::marker::PhantomData };
        proof {
            let histories = Seq::new(9, |i: int|
                if i == 0 {
                    h0
                } else if i == 1 {
                    h1
                } else if i == 2 {
                    h2
                } else if i == 3 {
                    h3
                } else if i == 4 {
                    h4
                } else if i == 5 {
                    h5
                } else if i == 6 {
                    h6
                } else if i == 7 {
                    h7
                } else {
                    h8
                });
            assert forall|i: int| 0 <= i < 8 implies (#[trigger] histories[i]).is_prefix_of(histories[i + 1])
                && Self::field_read(address, value, i, events_since(histories[i], histories[i + 1])) by {
                if i == 0 {
                    assert(Self::field_read(address, value, 0, events_since(h0, h1))) by {
                        reveal(GHashTable::field_read);
                    }
                } else if i == 1 {
                    assert(Self::field_read(address, value, 1, events_since(h1, h2))) by {
                        reveal(GHashTable::field_read);
                    }
                } else if i == 2 {
                    assert(Self::field_read(address, value, 2, events_since(h2, h3))) by {
                        reveal(GHashTable::field_read);
                    }
                } else if i == 3 {
                    assert(Self::field_read(address, value, 3, events_since(h3, h4))) by {
                        reveal(GHashTable::field_read);
                    }
                } else if i == 4 {
                    assert(Self::field_read(address, value, 4, events_since(h4, h5))) by {
                        reveal(GHashTable::field_read);
                    }
                } else if i == 5 {
                    assert(Self::field_read(address, value, 5, events_since(h5, h6))) by {
                        reveal(GHashTable::field_read);
                    }
                } else if i == 6 {
                    assert(Self::field_read(address, value, 6, events_since(h6, h7))) by {
                        reveal(GHashTable::field_read);
                    }
                } else if i == 7 {
                    assert(Self::field_read(address, value, 7, events_since(h7, h8))) by {
                        reveal(GHashTable::field_read);
                    }
                }
            }
            Self::lemma_reads_fields(address, value, histories);
        }
        Ok(value)
    }
}

/// The text of the error for a table without buckets.
pub open spec fn no_buckets_text() -> Seq<char> {
    "hash table has no buckets"@
}

/// The text of the error for a chain that is longer than any chain can be.
pub open spec fn endless_chain_text() -> Seq<char> {
    "bucket chain does not end"@
}

/// The bucket that a key with the hash `hash` belongs to, in a table of
/// `bucket_count` buckets.
pub open spec fn spec_bucket_index(hash: u32, bucket_count: int) -> int {
    hash as int % bucket_count
}

/// The bucket that a key with the hash `hash` belongs to, in a table of
/// `bucket_count` buckets.
pub fn bucket_index(hash: u32, bucket_count: usize) -> (index: usize)
    requires
        bucket_count > 0,
    ensures
        index == spec_bucket_index(hash, bucket_count as int),
        index < bucket_count,
{
    (hash as usize) % bucket_count
}

/// None of the first `count` of `entries` has the key `key`.
pub open spec fn no_match<K: Deserialize + Key, V: Deserialize>(entries: Seq<Entry<K, V>>, count: int, key: K) -> bool {
    forall|i: int| 0 <= i < count ==> !(#[trigger] entries[i]).key.same_key(&key)
}

/// What following a chain does whose first entry lies at `first`, for the key
/// `key`: the entries are read one after the other, and the first entry with
/// that key ends the reading; its value is the result. A chain that ends
/// without such an entry gives no result. An entry that cannot be read ends
/// the reading with its error; so does a chain of more than
/// [`MAX_LIST_LENGTH`] entries.
pub open spec fn chain_step<K: Deserialize + Key, V: Deserialize>(
    first: Address,
    key: K,
    events: Seq<ReadEvent>,
    outcome: Result<Option<V>, Error>,
) -> bool {
    exists|entries: Seq<Entry<K, V>>, cuts: Seq<int>|
        {
            let next = node_address(first, entries, entries.len() as int);
            &&& #[trigger] nodes_read(first, entries, cuts, events)
            &&& entries.len() <= MAX_LIST_LENGTH
            &&& match outcome {
                Ok(Some(value)) => {
                    &&& entries.len() > 0
                    &&& cuts.last() == events.len()
                    &&& no_match(entries, entries.len() - 1, key)
                    &&& entries.last().key.same_key(&key)
                    &&& value == entries.last().value
                },
                Ok(None) => {
                    &&& cuts.last() == events.len()
                    &&& no_match(entries, entries.len() as int, key)
                    &&& next@ == 0
                },
                Err(error) => {
                    &&& no_match(entries, entries.len() as int, key)
                    &&& next@ != 0
                    &&& if entries.len() == MAX_LIST_LENGTH {
                        &&& cuts.last() == events.len()
                        &&& error matches Error::InvalidStateError(text)
                        &&& text@ == endless_chain_text()
                    } else {
                        Entry::<K, V>::reads(next, events.skip(cuts.last()), Err(error))
                    }
                },
            }
        }
}

/// Follows the chain whose first entry lies at `first`, looking for `key`.
/// At zero there is no entry.
pub fn lookup_in_chain<K: Deserialize + Key, V: Deserialize, M: MemoryReader>(
    reader: &mut M,
    first: Address,
    key: &K,
) -> (r: Result<Option<V>, Error>)
    ensures
        old(reader).history().is_prefix_of(final(reader).history()),
        chain_step::<K, V>(first, *key, events_since(old(reader).history(), final(reader).history()), r),
{
    let ghost start = reader.history();
    let ghost mut entries: Seq<Entry<K, V>> = Seq::empty();
    let ghost mut cuts: Seq<int> = seq![0int];
    let mut next_addr = first;
    let mut count: usize = 0;
    proof {
        lemma_no_events(start);
    }
    if first.raw() == 0 {
        assert(nodes_read(first, entries, cuts, events_since(start, reader.history())));
        return Ok(None);
    }
    loop
        invariant
            start == old(reader).history(),
            start.is_prefix_of(reader.history()),
            entries.len() == count,
            nodes_read(first, entries, cuts, events_since(start, reader.history())),
            cuts.last() == events_since(start, reader.history()).len(),
            next_addr == node_address(first, entries, count as int),
            next_addr@ != 0,
            no_match(entries, count as int, *key),
        decreases MAX_LIST_LENGTH - count,
    {
        if count == MAX_LIST_LENGTH {
            return Err(Error::InvalidStateError(String::from_str("bucket chain does not end")));
        }
        let ghost before = reader.history();
        let entry = match Entry::<K, V>::read(reader, next_addr) {
            Ok(entry) => entry,
            Err(error) => {
                proof {
                    lemma_events_chain(start, before, reader.history());
                    lemma_segments_extend(
                        entries,
                        cuts,
                        events_since(start, before),
                        node_read(first, entries),
                        events_since(start, reader.history()),
                        node_read(first, entries),
                    );
                    assert(nodes_read(first, entries, cuts, events_since(start, reader.history())));
                }
                return Err(error);
            },
        };
        proof {
            lemma_events_chain(start, before, reader.history());
            let longer = entries.push(entry);
            lemma_node_read_push(first, entries, entry);
            lemma_segments_push(
                entries,
                cuts,
                events_since(start, before),
                node_read(first, entries),
                events_since(start, reader.history()),
                node_read(first, longer),
                entry,
            );
            entries = longer;
            cuts = cuts.push(events_since(start, reader.history()).len() as int);
            assert(nodes_read(first, entries, cuts, events_since(start, reader.history())));
        }
        if entry.key.is_key(key) {
            return Ok(Some(entry.value));
        }
        if entry.next == 0 {
            return Ok(None);
        }
        next_addr = Address::new(entry.next);
        count += 1;
    }
}

/// What a lookup does after the bucket's head was read.
pub open spec fn after_head<K: Deserialize + Key, V: Deserialize>(
    head: Result<Option<Address>, Error>,
    key: K,
    events: Seq<ReadEvent>,
    outcome: Result<Option<V>, Error>,
) -> bool {
    match head {
        Err(error) => events.len() == 0 && outcome == Err::<Option<V>, Error>(error),
        Ok(None) => events.len() == 0 && outcome == Ok::<Option<V>, Error>(None),
        Ok(Some(first)) => first@ != 0 && chain_step::<K, V>(first, key, events, outcome),
    }
}

/// What looking up the key that `text` spells does, in a table whose keys are
/// strings.
pub open spec fn looks_up_text<V: Deserialize>(
    table: GHashTable<String, V>,
    text: Seq<char>,
    events: Seq<ReadEvent>,
    outcome: Result<Option<V>, Error>,
) -> bool {
    exists|key: String| key@ == text && #[trigger] table.looks_up(key, events, outcome)
}

impl<K: Deserialize + Key, V: Deserialize> GHashTable<K, V> {
    /// What looking up `key` does. A table whose size is no count, or that
    /// has no buckets, or whose buckets have no address, is an error with
    /// nothing read. Else the head of the bucket `hash % size` is read; an
    /// empty bucket gives no result, and a bucket with entries has its chain
    /// followed.
    pub open spec fn looks_up(&self, key: K, events: Seq<ReadEvent>, outcome: Result<Option<V>, Error>) -> bool {
        let size = self.spec_table().spec_size().count_value();
        if !(0 <= size <= usize::MAX) {
            events.len() == 0 && outcome matches Err(Error::IntConversionError(_))
        } else if size == 0 {
            &&& events.len() == 0
            &&& outcome matches Err(Error::InvalidStateError(text))
            &&& text@ == no_buckets_text()
        } else {
            match self.spec_table().spec_array_ptr() {
                None => events.len() == 0 && outcome == Err::<Option<V>, Error>(
                    Error::NullPtrError(Address(0)),
                ),
                Some(buckets) => exists|cut: int, head: Result<Option<Address>, Error>|
                    {
                        &&& 0 <= cut <= events.len()
                        &&& #[trigger] element_step::<Option<Address>>(
                            buckets.target(),
                            spec_bucket_index(key.spec_hash(), size),
                            events.take(cut),
                            head,
                        )
                        &&& after_head::<K, V>(head, key, events.skip(cut), outcome)
                    },
            }
        }
    }

    /// Looks up `key`, reading the bucket that it hashes to and then the
    /// entries of that bucket's chain, one at a time, until one has the key.
    /// Returns the value of that entry, or `None` when the chain has no entry
    /// with the key.
    pub fn get<M: MemoryReader>(&self, reader: &mut M, key: &K) -> (r: Result<Option<V>, Error>)
        ensures
            old(reader).history().is_prefix_of(final(reader).history()),
            self.looks_up(*key, events_since(old(reader).history(), final(reader).history()), r),
    {
        let ghost start = reader.history();
        proof {
            lemma_no_events(start);
        }
        let size = match self.table.size().to_count() {
            Ok(size) => size,
            Err(error) => {
                return Err(error);
            },
        };
        if size == 0 {
            return Err(Error::InvalidStateError(String::from_str("hash table has no buckets")));
        }
        let buckets = match self.table.array_ptr() {
            Some(buckets) => buckets,
            None => {
                return Err(Error::NullPtrError(Address::new(0)));
            },
        };
        let bucket = bucket_index(key.hash(), size);
        let head = buckets.nth_element(reader, bucket);
        let ghost middle = reader.history();
        proof {
            let events = events_since(start, middle);
            assert(events.take(events.len() as int) =~= events);
            assert(events.skip(events.len() as int) =~= Seq::<ReadEvent>::empty());
        }
        match head {
            Err(error) => {
                assert(after_head::<K, V>(head, *key, Seq::<ReadEvent>::empty(), Err(error)));
                Err(error)
            },
            Ok(None) => {
                assert(after_head::<K, V>(head, *key, Seq::<ReadEvent>::empty(), Ok(None)));
                Ok(None)
            },
            Ok(Some(first)) => {
                proof {
                    let target = Address(
                        crate::deserialize::arrayptr::element_address::<Option<Address>>(
                            buckets.target(),
                            bucket as int,
                        ) as usize,
                    );
                    assert(<Option<Address> as Deserialize>::decodes(target, events_since(start, middle), head));
                    crate::deserialize::ptr::lemma_optional_pointer_nonzero(target, events_since(start, middle), head);
                }
                let r = lookup_in_chain::<K, V, M>(reader, first, key);
                proof {
                    lemma_events_chain(start, middle, reader.history());
                    let events = events_since(start, reader.history());
                    let cut = events_since(start, middle).len() as int;
                    assert(element_step::<Option<Address>>(
                        buckets.target(),
                        spec_bucket_index(key.spec_hash(), size as int),
                        events.take(cut),
                        head,
                    ));
                    assert(after_head::<K, V>(head, *key, events.skip(cut), r));
                }
                r
            },
        }
    }
}

} // verus!

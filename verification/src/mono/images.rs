use crate::deserialize::cursor::{field_context_text, field_step, FieldCursor};
use crate::deserialize::deserializetrait::{lemma_small_powers_of_two, Deserialize};
use crate::deserialize::eager::Eager;
use crate::deserialize::error::Error;
use crate::deserialize::layout::{
    alignment_among, end_after, fields_aligned, struct_alignment, struct_num_bytes, FieldLayout,
};
use crate::deserialize::ptr::Ptr;
use crate::deserialize::segments::{lemma_fails_later, lemma_prefix_trans, lemma_stretches_chain, stretches};
use crate::memory::address::Address;
use crate::memory::address::VariableLengthAddressRange;
use crate::memory::locator::{LocateEvent, MemoryLocator};
use crate::memory::reader::{events_since, lemma_events_chain, lemma_no_events, MemoryReader, ReadEvent};
use crate::memory::reader::other_error;
use crate::memory::searcher::{searches, MemorySearcher};
use super::class::Class;
use super::ghashtable::{looks_up_text, GHashTable};
use super::internalhashtable::MonoInternalHashTable;
use vstd::prelude::*;
use vstd::string::StringExecFns;

verus! {

/// Whether every bit of `flag` is set in `byte`.
#[must_use]
fn has_flag(byte: u8, flag: u8) -> (r: bool)
    ensures
        r <==> byte & flag == flag,
{
    byte & flag == flag
}

/// Where one stream of an image's metadata lies, and how long it is.
pub struct MonoStreamHeader {
    pub data: Option<Address>,
    pub size: u32,
}

impl MonoStreamHeader {
    /// The layout of field `index`, in declaration order.
    pub open spec fn field_layout(index: int) -> FieldLayout {
        if index == 0 {
            FieldLayout::spec_of::<Option<Address>>()
        } else {
            FieldLayout::spec_of::<u32>()
        }
    }

    /// The layouts of the fields, in declaration order.
    pub open spec fn fields() -> Seq<FieldLayout> {
        Seq::new(2, |index: int| Self::field_layout(index))
    }

    /// Where the fields before field `index` end, in a structure at `address`.
    pub open spec fn end_before(address: Address, index: int) -> int {
        end_after(address@, Self::fields(), index)
    }

    /// What the reading of field `index` did to arrive at that field of `value`.
    /// Kept out of sight of the prover until it is revealed.
    #[verifier::opaque]
    pub open spec fn field_read(address: Address, value: Self, index: int, events: Seq<ReadEvent>) -> bool {
        if index == 0 {
            field_step::<Option<Address>>(
                address,
                Self::end_before(address, 0),
                field_context_text("MonoStreamHeader"@, "data"@),
                events,
                Ok(value.data),
            )
        } else {
            field_step::<u32>(
                address,
                Self::end_before(address, 1),
                field_context_text("MonoStreamHeader"@, "size"@),
                events,
                Ok(value.size),
            )
        }
    }

    /// What the reading of field `index` did to fail with `error`. Kept out of
    /// sight of the prover until it is revealed.
    #[verifier::opaque]
    pub open spec fn field_fails(address: Address, index: int, events: Seq<ReadEvent>, error: Error) -> bool {
        if index == 0 {
            field_step::<Option<Address>>(
                address,
                Self::end_before(address, 0),
                field_context_text("MonoStreamHeader"@, "data"@),
                events,
                Err(error),
            )
        } else {
            field_step::<u32>(
                address,
                Self::end_before(address, 1),
                field_context_text("MonoStreamHeader"@, "size"@),
                events,
                Err(error),
            )
        }
    }

    /// What the reading of each field did, for the fields of `value`.
    pub open spec fn fields_read(address: Address, value: Self) -> spec_fn(int, Seq<ReadEvent>) -> bool {
        |index: int, events: Seq<ReadEvent>| Self::field_read(address, value, index, events)
    }

    /// The fields of `value` were read in declaration order, each at the end of
    /// the one before it rounded up to its own alignment, with exactly the
    /// requests in `events`.
    pub open spec fn reads_fields(address: Address, events: Seq<ReadEvent>, value: Self) -> bool {
        exists|cuts: Seq<int>| #[trigger]
            stretches(2, cuts, events, Self::fields_read(address, value)) && cuts.last() == events.len()
    }

    /// The reading ended with a field that could not be read: `error` is that
    /// field's error, wrapped in a context that names the field.
    pub open spec fn fails_at_field(address: Address, events: Seq<ReadEvent>, error: Error) -> bool {
        exists|index: int, cut: int|
            0 <= index < 2 && 0 <= cut <= events.len() && #[trigger] Self::field_fails(
                address,
                index,
                events.skip(cut),
                error,
            )
    }

    /// When a history grew through one state for each field, and what was added
    /// from each state to the next is the reading of that field of `value`, the
    /// whole of what was added is the reading of `value`.
    pub proof fn lemma_reads_fields(address: Address, value: Self, histories: Seq<Seq<ReadEvent>>)
        requires
            histories.len() == 3,
            forall|i: int|
                0 <= i < 2 ==> (#[trigger] histories[i]).is_prefix_of(histories[i + 1]) && Self::field_read(
                    address,
                    value,
                    i,
                    events_since(histories[i], histories[i + 1]),
                ),
        ensures
            Self::reads_fields(address, events_since(histories[0], histories[2]), value),
    {
        let step = Self::fields_read(address, value);
        assert forall|i: int| 0 <= i < 2 implies (#[trigger] histories[i]).is_prefix_of(histories[i + 1]) && step(
            i,
            events_since(histories[i], histories[i + 1]),
        ) by {
            assert(Self::field_read(address, value, i, events_since(histories[i], histories[i + 1])));
        }
        let cuts = lemma_stretches_chain(2, histories, step);
        assert(stretches(2, cuts, events_since(histories[0], histories[2]), Self::fields_read(address, value)));
    }

    /// The size and alignment of the structure are those of its fields laid
    /// out in declaration order.
    pub proof fn lemma_fields()
        ensures
            fields_aligned(Self::fields()),
            Self::fields().len() == 2,
    {
        <Option<Address>>::lemma_layout();
        <u32>::lemma_layout();
    }
}

impl MonoStreamHeader {
    /// The size and the alignment of the structure are those of its fields laid
    /// out in declaration order.
    pub proof fn lemma_size()
        ensures
            <Self as Deserialize>::NUM_BYTES == struct_num_bytes(Self::fields()),
            <Self as Deserialize>::ALIGNMENT == struct_alignment(Self::fields()),
    {
        Self::lemma_fields();
        lemma_small_powers_of_two();
        <Option<Address>>::lemma_layout();
        <u32>::lemma_layout();
        assert(end_after(0, Self::fields(), 0) == 0);
        assert(alignment_among(Self::fields(), 0) == 1);
        assert(Self::fields()[0] == FieldLayout { num_bytes: 8, alignment: 8 });
        assert(end_after(0, Self::fields(), 1) == 8);
        assert(Self::fields()[1] == FieldLayout { num_bytes: 4, alignment: 4 });
        assert(end_after(0, Self::fields(), 2) == 12);
        assert(alignment_among(Self::fields(), 1) == 8);
        assert(alignment_among(Self::fields(), 2) == 8);
    }
}

impl Deserialize for MonoStreamHeader {
    const NUM_BYTES: usize = 12;

    const ALIGNMENT: usize = 8;

    open spec fn layout() -> FieldLayout {
        FieldLayout { num_bytes: 12, alignment: 8 }
    }

    proof fn lemma_layout() {
        lemma_small_powers_of_two();
    }

    /// The fields are read in declaration order, each at the end of the one
    /// before it rounded up to its own alignment. The first field that cannot
    /// be read ends the reading; its error is the outcome, wrapped in a
    /// context that names the field.
    open spec fn decodes(address: Address, events: Seq<ReadEvent>, outcome: Result<Self, Error>) -> bool {
        match outcome {
            Ok(value) => Self::reads_fields(address, events, value),
            Err(error) => Self::fails_at_field(address, events, error),
        }
    }

    fn deserialize<M: MemoryReader>(reader: &mut M, address: Address) -> (r: Result<Self, Error>) {
        let ghost h0 = reader.history();
        let mut cursor = FieldCursor::new(address);
        proof {
            Self::lemma_fields();
            lemma_no_events(h0);
            assert(Self::end_before(address, 0) == address@);
        }
        let field0 = match cursor.field::<Option<Address>, M>(reader, "MonoStreamHeader", "data") {
            Ok(value) => value,
            Err(error) => {
                proof {
                    lemma_events_chain(h0, h0, reader.history());
                    let cut = events_since(h0, h0).len() as int;
                    assert(Self::field_fails(address, 0, events_since(h0, reader.history()).skip(cut), error)) by {
                        reveal(MonoStreamHeader::field_fails);
                    }
                    assert(Self::fails_at_field(address, events_since(h0, reader.history()), error));
                }
                return Err(error);
            },
        };
        let ghost h1 = reader.history();
        proof {
            lemma_prefix_trans(h0, h0, h1);
            assert(cursor.end() == Self::end_before(address, 1));
        }
        let field1 = match cursor.field::<u32, M>(reader, "MonoStreamHeader", "size") {
            Ok(value) => value,
            Err(error) => {
                proof {
                    lemma_events_chain(h0, h1, reader.history());
                    let cut = events_since(h0, h1).len() as int;
                    assert(Self::field_fails(address, 1, events_since(h0, reader.history()).skip(cut), error)) by {
                        reveal(MonoStreamHeader::field_fails);
                    }
                    assert(Self::fails_at_field(address, events_since(h0, reader.history()), error));
                }
                return Err(error);
            },
        };
        let ghost h2 = reader.history();
        proof {
            lemma_prefix_trans(h0, h1, h2);
            assert(cursor.end() == Self::end_before(address, 2));
        }
        let value = Self { data: field0, size: field1 };
        proof {
            let histories = Seq::new(3, |i: int|
                if i == 0 {
                    h0
                } else if i == 1 {
                    h1
                } else {
                    h2
                });
            assert forall|i: int| 0 <= i < 2 implies (#[trigger] histories[i]).is_prefix_of(histories[i + 1])
                && Self::field_read(address, value, i, events_since(histories[i], histories[i + 1])) by {
                if i == 0 {
                    assert(Self::field_read(address, value, 0, events_since(h0, h1))) by {
                        reveal(MonoStreamHeader::field_read);
                    }
                } else if i == 1 {
                    assert(Self::field_read(address, value, 1, events_since(h1, h2))) by {
                        reveal(MonoStreamHeader::field_read);
                    }
                }
            }
            Self::lemma_reads_fields(address, value, histories);
        }
        Ok(value)
    }
}

/// One table of an image's metadata.
pub struct MonoTableInfo {
    pub base: Option<Address>,
    pub rows_fields: u32,
    pub size_bitfield: u32,
}

impl MonoTableInfo {
    /// The layout of field `index`, in declaration order.
    pub open spec fn field_layout(index: int) -> FieldLayout {
        if index == 0 {
            FieldLayout::spec_of::<Option<Address>>()
        } else if index == 1 {
            FieldLayout::spec_of::<u32>()
        } else {
            FieldLayout::spec_of::<u32>()
        }
    }

    /// The layouts of the fields, in declaration order.
    pub open spec fn fields() -> Seq<FieldLayout> {
        Seq::new(3, |index: int| Self::field_layout(index))
    }

    /// Where the fields before field `index` end, in a structure at `address`.
    pub open spec fn end_before(address: Address, index: int) -> int {
        end_after(address@, Self::fields(), index)
    }

    /// What the reading of field `index` did to arrive at that field of `value`.
    /// Kept out of sight of the prover until it is revealed.
    #[verifier::opaque]
    pub open spec fn field_read(address: Address, value: Self, index: int, events: Seq<ReadEvent>) -> bool {
        if index == 0 {
            field_step::<Option<Address>>(
                address,
                Self::end_before(address, 0),
                field_context_text("MonoTableInfo"@, "base"@),
                events,
                Ok(value.base),
            )
        } else if index == 1 {
            field_step::<u32>(
                address,
                Self::end_before(address, 1),
                field_context_text("MonoTableInfo"@, "rows_fields"@),
                events,
                Ok(value.rows_fields),
            )
        } else {
            field_step::<u32>(
                address,
                Self::end_before(address, 2),
                field_context_text("MonoTableInfo"@, "size_bitfield"@),
                events,
                Ok(value.size_bitfield),
            )
        }
    }

    /// What the reading of field `index` did to fail with `error`. Kept out of
    /// sight of the prover until it is revealed.
    #[verifier::opaque]
    pub open spec fn field_fails(address: Address, index: int, events: Seq<ReadEvent>, error: Error) -> bool {
        if index == 0 {
            field_step::<Option<Address>>(
                address,
                Self::end_before(address, 0),
                field_context_text("MonoTableInfo"@, "base"@),
                events,
                Err(error),
            )
        } else if index == 1 {
            field_step::<u32>(
                address,
                Self::end_before(address, 1),
                field_context_text("MonoTableInfo"@, "rows_fields"@),
                events,
                Err(error),
            )
        } else {
            field_step::<u32>(
                address,
                Self::end_before(address, 2),
                field_context_text("MonoTableInfo"@, "size_bitfield"@),
                events,
                Err(error),
            )
        }
    }

    /// What the reading of each field did, for the fields of `value`.
    pub open spec fn fields_read(address: Address, value: Self) -> spec_fn(int, Seq<ReadEvent>) -> bool {
        |index: int, events: Seq<ReadEvent>| Self::field_read(address, value, index, events)
    }

    /// The fields of `value` were read in declaration order, each at the end of
    /// the one before it rounded up to its own alignment, with exactly the
    /// requests in `events`.
    pub open spec fn reads_fields(address: Address, events: Seq<ReadEvent>, value: Self) -> bool {
        exists|cuts: Seq<int>| #[trigger]
            stretches(3, cuts, events, Self::fields_read(address, value)) && cuts.last() == events.len()
    }

    /// The reading ended with a field that could not be read: `error` is that
    /// field's error, wrapped in a context that names the field.
    pub open spec fn fails_at_field(address: Address, events: Seq<ReadEvent>, error: Error) -> bool {
        exists|index: int, cut: int|
            0 <= index < 3 && 0 <= cut <= events.len() && #[trigger] Self::field_fails(
                address,
                index,
                events.skip(cut),
                error,
            )
    }

    /// When a history grew through one state for each field, and what was added
    /// from each state to the next is the reading of that field of `value`, the
    /// whole of what was added is the reading of `value`.
    pub proof fn lemma_reads_fields(address: Address, value: Self, histories: Seq<Seq<ReadEvent>>)
        requires
            histories.len() == 4,
            forall|i: int|
                0 <= i < 3 ==> (#[trigger] histories[i]).is_prefix_of(histories[i + 1]) && Self::field_read(
                    address,
                    value,
                    i,
                    events_since(histories[i], histories[i + 1]),
                ),
        ensures
            Self::reads_fields(address, events_since(histories[0], histories[3]), value),
    {
        let step = Self::fields_read(address, value);
        assert forall|i: int| 0 <= i < 3 implies (#[trigger] histories[i]).is_prefix_of(histories[i + 1]) && step(
            i,
            events_since(histories[i], histories[i + 1]),
        ) by {
            assert(Self::field_read(address, value, i, events_since(histories[i], histories[i + 1])));
        }
        let cuts = lemma_stretches_chain(3, histories, step);
        assert(stretches(3, cuts, events_since(histories[0], histories[3]), Self::fields_read(address, value)));
    }

    /// The size and alignment of the structure are those of its fields laid
    /// out in declaration order.
    pub proof fn lemma_fields()
        ensures
            fields_aligned(Self::fields()),
            Self::fields().len() == 3,
    {
        <Option<Address>>::lemma_layout();
        <u32>::lemma_layout();
        <u32>::lemma_layout();
    }
}

impl MonoTableInfo {
    /// The size and the alignment of the structure are those of its fields laid
    /// out in declaration order.
    pub proof fn lemma_size()
        ensures
            <Self as Deserialize>::NUM_BYTES == struct_num_bytes(Self::fields()),
            <Self as Deserialize>::ALIGNMENT == struct_alignment(Self::fields()),
    {
        Self::lemma_fields();
        lemma_small_powers_of_two();
        <Option<Address>>::lemma_layout();
        <u32>::lemma_layout();
        assert(end_after(0, Self::fields(), 0) == 0);
        assert(alignment_among(Self::fields(), 0) == 1);
        assert(Self::fields()[0] == FieldLayout { num_bytes: 8, alignment: 8 });
        assert(end_after(0, Self::fields(), 1) == 8);
        assert(Self::fields()[1] == FieldLayout { num_bytes: 4, alignment: 4 });
        assert(end_after(0, Self::fields(), 2) == 12);
        assert(Self::fields()[2] == FieldLayout { num_bytes: 4, alignment: 4 });
        assert(end_after(0, Self::fields(), 3) == 16);
        assert(alignment_among(Self::fields(), 1) == 8);
        assert(alignment_among(Self::fields(), 2) == 8);
        assert(alignment_among(Self::fields(), 3) == 8);
    }
}

impl Deserialize for MonoTableInfo {
    const NUM_BYTES: usize = 16;

    const ALIGNMENT: usize = 8;

    open spec fn layout() -> FieldLayout {
        FieldLayout { num_bytes: 16, alignment: 8 }
    }

    proof fn lemma_layout() {
        lemma_small_powers_of_two();
    }

    /// The fields are read in declaration order, each at the end of the one
    /// before it rounded up to its own alignment. The first field that cannot
    /// be read ends the reading; its error is the outcome, wrapped in a
    /// context that names the field.
    open spec fn decodes(address: Address, events: Seq<ReadEvent>, outcome: Result<Self, Error>) -> bool {
        match outcome {
            Ok(value) => Self::reads_fields(address, events, value),
            Err(error) => Self::fails_at_field(address, events, error),
        }
    }

    fn deserialize<M: MemoryReader>(reader: &mut M, address: Address) -> (r: Result<Self, Error>) {
        let ghost h0 = reader.history();
        let mut cursor = FieldCursor::new(address);
        proof {
            Self::lemma_fields();
            lemma_no_events(h0);
            assert(Self::end_before(address, 0) == address@);
        }
        let field0 = match cursor.field::<Option<Address>, M>(reader, "MonoTableInfo", "base") {
            Ok(value) => value,
            Err(error) => {
                proof {
                    lemma_events_chain(h0, h0, reader.history());
                    let cut = events_since(h0, h0).len() as int;
                    assert(Self::field_fails(address, 0, events_since(h0, reader.history()).skip(cut), error)) by {
                        reveal(MonoTableInfo::field_fails);
                    }
                    assert(Self::fails_at_field(address, events_since(h0, reader.history()), error));
                }
                return Err(error);
            },
        };
        let ghost h1 = reader.history();
        proof {
            lemma_prefix_trans(h0, h0, h1);
            assert(cursor.end() == Self::end_before(address, 1));
        }
        let field1 = match cursor.field::<u32, M>(reader, "MonoTableInfo", "rows_fields") {
            Ok(value) => value,
            Err(error) => {
                proof {
                    lemma_events_chain(h0, h1, reader.history());
                    let cut = events_since(h0, h1).len() as int;
                    assert(Self::field_fails(address, 1, events_since(h0, reader.history()).skip(cut), error)) by {
                        reveal(MonoTableInfo::field_fails);
                    }
                    assert(Self::fails_at_field(address, events_since(h0, reader.history()), error));
                }
                return Err(error);
            },
        };
        let ghost h2 = reader.history();
        proof {
            lemma_prefix_trans(h0, h1, h2);
            assert(cursor.end() == Self::end_before(address, 2));
        }
        let field2 = match cursor.field::<u32, M>(reader, "MonoTableInfo", "size_bitfield") {
            Ok(value) => value,
            Err(error) => {
                proof {
                    lemma_events_chain(h0, h2, reader.history());
                    let cut = events_since(h0, h2).len() as int;
                    assert(Self::field_fails(address, 2, events_since(h0, reader.history()).skip(cut), error)) by {
                        reveal(MonoTableInfo::field_fails);
                    }
                    assert(Self::fails_at_field(address, events_since(h0, reader.history()), error));
                }
                return Err(error);
            },
        };
        let ghost h3 = reader.history();
        proof {
            lemma_prefix_trans(h0, h2, h3);
            assert(cursor.end() == Self::end_before(address, 3));
        }
        let value = Self { base: field0, rows_fields: field1, size_bitfield: field2 };
        proof {
            let histories = Seq::new(4, |i: int|
                if i == 0 {
                    h0
                } else if i == 1 {
                    h1
                } else if i == 2 {
                    h2
                } else {
                    h3
                });
            assert forall|i: int| 0 <= i < 3 implies (#[trigger] histories[i]).is_prefix_of(histories[i + 1])
                && Self::field_read(address, value, i, events_since(histories[i], histories[i + 1])) by {
                if i == 0 {
                    assert(Self::field_read(address, value, 0, events_since(h0, h1))) by {
                        reveal(MonoTableInfo::field_read);
                    }
                } else if i == 1 {
                    assert(Self::field_read(address, value, 1, events_since(h1, h2))) by {
                        reveal(MonoTableInfo::field_read);
                    }
                } else if i == 2 {
                    assert(Self::field_read(address, value, 2, events_since(h2, h3))) by {
                        reveal(MonoTableInfo::field_read);
                    }
                }
            }
            Self::lemma_reads_fields(address, value, histories);
        }
        Ok(value)
    }
}

impl MonoTableInfo {
    /// The number of rows: the top eight bits of the packed field.
    #[must_use]
    pub fn rows(&self) -> (r: u32)
        ensures
            r == self.rows_fields >> 24,
    {
        self.rows_fields >> 24
    }

    /// The size of a row: the low eight bits of the packed field.
    #[must_use]
    pub fn row_size(&self) -> (r: u32)
        ensures
            r == self.rows_fields & 0xff,
    {
        self.rows_fields & 0b1111_1111
    }
}

/// A loaded image, as the other process lays it out.
pub struct Image {
    pub ref_count: i32,
    pub raw_data_handle: Option<Address>,
    pub raw_data: Option<Address>,
    pub raw_data_len: u32,
    pub bitfields: [u8; 2],
    pub name: String,
    pub assembly_name: Option<String>,
    pub module_name: Option<String>,
    pub version: Option<String>,
    pub md_version_major: i16,
    pub md_version_minor: i16,
    pub guid: Option<String>,
    pub image_info: Option<Address>,
    pub mempool: Option<Address>,
    pub raw_metadata: Option<Address>,
    pub heap_strings: MonoStreamHeader,
    pub heap_us: MonoStreamHeader,
    pub heap_blob: MonoStreamHeader,
    pub heap_guid: MonoStreamHeader,
    pub heap_tables: MonoStreamHeader,
    pub heap_pdb: MonoStreamHeader,
    pub tables_base: Option<Address>,
    pub referenced_tables: u64,
    pub referenced_table_rows: Option<Address>,
    pub tables: [MonoTableInfo; 56],
    pub references: Option<Address>,
    pub nreferences: i32,
    pub modules: Option<Address>,
    pub module_count: u32,
    pub modules_loaded: Option<Address>,
    pub files: Option<Address>,
    pub file_count: u32,
    pub aot_module: Option<Address>,
    pub aotid: [u8; 16],
    pub assembly: Option<Address>,
    pub method_cache: Option<Address>,
    pub class_cache: MonoInternalHashTable<Eager<Ptr<Class>>>,
    pub methodref_cache: Option<Address>,
    pub field_cache: Option<Address>,
    pub typespec_cache: Option<Address>,
    pub memberref_signatures: Option<Address>,
    pub method_signatures: Option<Address>,
    pub name_cache: Eager<Ptr<GHashTable<String, Eager<Ptr<GHashTable<String, u64>>>>>>,
    pub array_cache: Option<Address>,
    pub ptr_cache: Option<Address>,
    pub szarray_cache: Option<Address>,
    pub szarray_cache_lock: [u8; 64],
    pub native_func_wrapper_cache: Option<Address>,
    pub runtime_invoke_vcall_cache: Option<Address>,
    pub wrapper_param_names: Option<Address>,
    pub array_accessor_cache: Option<Address>,
    pub ldfld_wrapper_cache: Option<Address>,
    pub ldflda_wrapper_cache: Option<Address>,
    pub stfld_wrapper_cache: Option<Address>,
    pub isinst_cache: Option<Address>,
    pub icall_wrapper_cache: Option<Address>,
    pub castclass_cache: Option<Address>,
    pub proxy_isinst_cache: Option<Address>,
    pub rgctx_template_hash: Option<Address>,
    pub property_hash: Option<Address>,
    pub reflection_info: Option<Address>,
    pub user_info: Option<Address>,
    pub dll_map: Option<Address>,
    pub interface_bitset: Option<Address>,
    pub reflection_info_unregister_classes: Option<Address>,
    pub image_sets: Option<Address>,
    pub wrapper_caches: [Option<Address>; 21],
    pub var_cache_fast: Option<Address>,
    pub mvar_cache_fast: Option<Address>,
    pub var_cache_slow: Option<Address>,
    pub mvar_cache_slow: Option<Address>,
    pub var_cache_constrained: Option<Address>,
    pub mvar_cache_constrained: Option<Address>,
    pub pinvoke_scopes: Option<Address>,
    pub pinvoke_scope_filenames: Option<Address>,
    pub loader: Option<Address>,
    pub anonymous_generic_class_container: Option<Address>,
    pub anonymous_generic_method_container: Option<Address>,
    pub weak_fields_inited: bool,
    pub weak_field_indexes: Option<Address>,
    pub lock: [u8; 64],
}

impl Image {
    /// The layout of field `index`, in declaration order.
    pub open spec fn field_layout(index: int) -> FieldLayout {
        if index == 0 {
            FieldLayout::spec_of::<i32>()
        } else if index == 1 {
            FieldLayout::spec_of::<Option<Address>>()
        } else if index == 2 {
            FieldLayout::spec_of::<Option<Address>>()
        } else if index == 3 {
            FieldLayout::spec_of::<u32>()
        } else if index == 4 {
            FieldLayout::spec_of::<[u8; 2]>()
        } else if index == 5 {
            FieldLayout::spec_of::<String>()
        } else if index == 6 {
            FieldLayout::spec_of::<Option<String>>()
        } else if index == 7 {
            FieldLayout::spec_of::<Option<String>>()
        } else if index == 8 {
            FieldLayout::spec_of::<Option<String>>()
        } else if index == 9 {
            FieldLayout::spec_of::<i16>()
        } else if index == 10 {
            FieldLayout::spec_of::<i16>()
        } else if index == 11 {
            FieldLayout::spec_of::<Option<String>>()
        } else if index == 12 {
            FieldLayout::spec_of::<Option<Address>>()
        } else if index == 13 {
            FieldLayout::spec_of::<Option<Address>>()
        } else if index == 14 {
            FieldLayout::spec_of::<Option<Address>>()
        } else if index == 15 {
            FieldLayout::spec_of::<MonoStreamHeader>()
        } else if index == 16 {
            FieldLayout::spec_of::<MonoStreamHeader>()
        } else if index == 17 {
            FieldLayout::spec_of::<MonoStreamHeader>()
        } else if index == 18 {
            FieldLayout::spec_of::<MonoStreamHeader>()
        } else if index == 19 {
            FieldLayout::spec_of::<MonoStreamHeader>()
        } else if index == 20 {
            FieldLayout::spec_of::<MonoStreamHeader>()
        } else if index == 21 {
            FieldLayout::spec_of::<Option<Address>>()
        } else if index == 22 {
            FieldLayout::spec_of::<u64>()
        } else if index == 23 {
            FieldLayout::spec_of::<Option<Address>>()
        } else if index == 24 {
            FieldLayout::spec_of::<[MonoTableInfo; 56]>()
        } else if index == 25 {
            FieldLayout::spec_of::<Option<Address>>()
        } else if index == 26 {
            FieldLayout::spec_of::<i32>()
        } else if index == 27 {
            FieldLayout::spec_of::<Option<Address>>()
        } else if index == 28 {
            FieldLayout::spec_of::<u32>()
        } else if index == 29 {
            FieldLayout::spec_of::<Option<Address>>()
        } else if index == 30 {
            FieldLayout::spec_of::<Option<Address>>()
        } else if index == 31 {
            FieldLayout::spec_of::<u32>()
        } else if index == 32 {
            FieldLayout::spec_of::<Option<Address>>()
        } else if index == 33 {
            FieldLayout::spec_of::<[u8; 16]>()
        } else if index == 34 {
            FieldLayout::spec_of::<Option<Address>>()
        } else if index == 35 {
            FieldLayout::spec_of::<Option<Address>>()
        } else if index == 36 {
            FieldLayout::spec_of::<MonoInternalHashTable<Eager<Ptr<Class>>>>()
        } else if index == 37 {
            FieldLayout::spec_of::<Option<Address>>()
        } else if index == 38 {
            FieldLayout::spec_of::<Option<Address>>()
        } else if index == 39 {
            FieldLayout::spec_of::<Option<Address>>()
        } else if index == 40 {
            FieldLayout::spec_of::<Option<Address>>()
        } else if index == 41 {
            FieldLayout::spec_of::<Option<Address>>()
        } else if index == 42 {
            FieldLayout::spec_of::<Eager<Ptr<GHashTable<String, Eager<Ptr<GHashTable<String, u64>>>>>>>()
        } else if index == 43 {
            FieldLayout::spec_of::<Option<Address>>()
        } else if index == 44 {
            FieldLayout::spec_of::<Option<Address>>()
        } else if index == 45 {
            FieldLayout::spec_of::<Option<Address>>()
        } else if index == 46 {
            FieldLayout::spec_of::<[u8; 64]>()
        } else if index == 47 {
            FieldLayout::spec_of::<Option<Address>>()
        } else if index == 48 {
            FieldLayout::spec_of::<Option<Address>>()
        } else if index == 49 {
            FieldLayout::spec_of::<Option<Address>>()
        } else if index == 50 {
            FieldLayout::spec_of::<Option<Address>>()
        } else if index == 51 {
            FieldLayout::spec_of::<Option<Address>>()
        } else if index == 52 {
            FieldLayout::spec_of::<Option<Address>>()
        } else if index == 53 {
            FieldLayout::spec_of::<Option<Address>>()
        } else if index == 54 {
            FieldLayout::spec_of::<Option<Address>>()
        } else if index == 55 {
            FieldLayout::spec_of::<Option<Address>>()
        } else if index == 56 {
            FieldLayout::spec_of::<Option<Address>>()
        } else if index == 57 {
            FieldLayout::spec_of::<Option<Address>>()
        } else if index == 58 {
            FieldLayout::spec_of::<Option<Address>>()
        } else if index == 59 {
            FieldLayout::spec_of::<Option<Address>>()
        } else if index == 60 {
            FieldLayout::spec_of::<Option<Address>>()
        } else if index == 61 {
            FieldLayout::spec_of::<Option<Address>>()
        } else if index == 62 {
            FieldLayout::spec_of::<Option<Address>>()
        } else if index == 63 {
            FieldLayout::spec_of::<Option<Address>>()
        } else if index == 64 {
            FieldLayout::spec_of::<Option<Address>>()
        } else if index == 65 {
            FieldLayout::spec_of::<Option<Address>>()
        } else if index == 66 {
            FieldLayout::spec_of::<[Option<Address>; 21]>()
        } else if index == 67 {
            FieldLayout::spec_of::<Option<Address>>()
        } else if index == 68 {
            FieldLayout::spec_of::<Option<Address>>()
        } else if index == 69 {
            FieldLayout::spec_of::<Option<Address>>()
        } else if index == 70 {
            FieldLayout::spec_of::<Option<Address>>()
        } else if index == 71 {
            FieldLayout::spec_of::<Option<Address>>()
        } else if index == 72 {
            FieldLayout::spec_of::<Option<Address>>()
        } else if index == 73 {
            FieldLayout::spec_of::<Option<Address>>()
        } else if index == 74 {
            FieldLayout::spec_of::<Option<Address>>()
        } else if index == 75 {
            FieldLayout::spec_of::<Option<Address>>()
        } else if index == 76 {
            FieldLayout::spec_of::<Option<Address>>()
        } else if index == 77 {
            FieldLayout::spec_of::<Option<Address>>()
        } else if index == 78 {
            FieldLayout::spec_of::<bool>()
        } else if index == 79 {
            FieldLayout::spec_of::<Option<Address>>()
        } else {
            FieldLayout::spec_of::<[u8; 64]>()
        }
    }

    /// The layouts of the fields, in declaration order.
    pub open spec fn fields() -> Seq<FieldLayout> {
        Seq::new(81, |index: int| Self::field_layout(index))
    }

    /// Where the fields before field `index` end, in a structure at `address`.
    pub open spec fn end_before(address: Address, index: int) -> int {
        end_after(address@, Self::fields(), index)
    }

    /// What the reading of field `index` did to arrive at that field of `value`.
    /// Kept out of sight of the prover until it is revealed.
    #[verifier::opaque]
    pub open spec fn field_read(address: Address, value: Self, index: int, events: Seq<ReadEvent>) -> bool {
        if index == 0 {
            field_step::<i32>(
                address,
                Self::end_before(address, 0),
                field_context_text("Image"@, "ref_count"@),
                events,
                Ok(value.ref_count),
            )
        } else if index == 1 {
            field_step::<Option<Address>>(
                address,
                Self::end_before(address, 1),
                field_context_text("Image"@, "raw_data_handle"@),
                events,
                Ok(value.raw_data_handle),
            )
        } else if index == 2 {
            field_step::<Option<Address>>(
                address,
                Self::end_before(address, 2),
                field_context_text("Image"@, "raw_data"@),
                events,
                Ok(value.raw_data),
            )
        } else if index == 3 {
            field_step::<u32>(
                address,
                Self::end_before(address, 3),
                field_context_text("Image"@, "raw_data_len"@),
                events,
                Ok(value.raw_data_len),
            )
        } else if index == 4 {
            field_step::<[u8; 2]>(
                address,
                Self::end_before(address, 4),
                field_context_text("Image"@, "bitfields"@),
                events,
                Ok(value.bitfields),
            )
        } else if index == 5 {
            field_step::<String>(
                address,
                Self::end_before(address, 5),
                field_context_text("Image"@, "name"@),
                events,
                Ok(value.name),
            )
        } else if index == 6 {
            field_step::<Option<String>>(
                address,
                Self::end_before(address, 6),
                field_context_text("Image"@, "assembly_name"@),
                events,
                Ok(value.assembly_name),
            )
        } else if index == 7 {
            field_step::<Option<String>>(
                address,
                Self::end_before(address, 7),
                field_context_text("Image"@, "module_name"@),
                events,
                Ok(value.module_name),
            )
        } else if index == 8 {
            field_step::<Option<String>>(
                address,
                Self::end_before(address, 8),
                field_context_text("Image"@, "version"@),
                events,
                Ok(value.version),
            )
        } else if index == 9 {
            field_step::<i16>(
                address,
                Self::end_before(address, 9),
                field_context_text("Image"@, "md_version_major"@),
                events,
                Ok(value.md_version_major),
            )
        } else if index == 10 {
            field_step::<i16>(
                address,
                Self::end_before(address, 10),
                field_context_text("Image"@, "md_version_minor"@),
                events,
                Ok(value.md_version_minor),
            )
        } else if index == 11 {
            field_step::<Option<String>>(
                address,
                Self::end_before(address, 11),
                field_context_text("Image"@, "guid"@),
                events,
                Ok(value.guid),
            )
        } else if index == 12 {
            field_step::<Option<Address>>(
                address,
                Self::end_before(address, 12),
                field_context_text("Image"@, "image_info"@),
                events,
                Ok(value.image_info),
            )
        } else if index == 13 {
            field_step::<Option<Address>>(
                address,
                Self::end_before(address, 13),
                field_context_text("Image"@, "mempool"@),
                events,
                Ok(value.mempool),
            )
        } else if index == 14 {
            field_step::<Option<Address>>(
                address,
                Self::end_before(address, 14),
                field_context_text("Image"@, "raw_metadata"@),
                events,
                Ok(value.raw_metadata),
            )
        } else if index == 15 {
            field_step::<MonoStreamHeader>(
                address,
                Self::end_before(address, 15),
                field_context_text("Image"@, "heap_strings"@),
                events,
                Ok(value.heap_strings),
            )
        } else if index == 16 {
            field_step::<MonoStreamHeader>(
                address,
                Self::end_before(address, 16),
                field_context_text("Image"@, "heap_us"@),
                events,
                Ok(value.heap_us),
            )
        } else if index == 17 {
            field_step::<MonoStreamHeader>(
                address,
                Self::end_before(address, 17),
                field_context_text("Image"@, "heap_blob"@),
                events,
                Ok(value.heap_blob),
            )
        } else if index == 18 {
            field_step::<MonoStreamHeader>(
                address,
                Self::end_before(address, 18),
                field_context_text("Image"@, "heap_guid"@),
                events,
                Ok(value.heap_guid),
            )
        } else if index == 19 {
            field_step::<MonoStreamHeader>(
                address,
                Self::end_before(address, 19),
                field_context_text("Image"@, "heap_tables"@),
                events,
                Ok(value.heap_tables),
            )
        } else if index == 20 {
            field_step::<MonoStreamHeader>(
                address,
                Self::end_before(address, 20),
                field_context_text("Image"@, "heap_pdb"@),
                events,
                Ok(value.heap_pdb),
            )
        } else if index == 21 {
            field_step::<Option<Address>>(
                address,
                Self::end_before(address, 21),
                field_context_text("Image"@, "tables_base"@),
                events,
                Ok(value.tables_base),
            )
        } else if index == 22 {
            field_step::<u64>(
                address,
                Self::end_before(address, 22),
                field_context_text("Image"@, "referenced_tables"@),
                events,
                Ok(value.referenced_tables),
            )
        } else if index == 23 {
            field_step::<Option<Address>>(
                address,
                Self::end_before(address, 23),
                field_context_text("Image"@, "referenced_table_rows"@),
                events,
                Ok(value.referenced_table_rows),
            )
        } else if index == 24 {
            field_step::<[MonoTableInfo; 56]>(
                address,
                Self::end_before(address, 24),
                field_context_text("Image"@, "tables"@),
                events,
                Ok(value.tables),
            )
        } else if index == 25 {
            field_step::<Option<Address>>(
                address,
                Self::end_before(address, 25),
                field_context_text("Image"@, "references"@),
                events,
                Ok(value.references),
            )
        } else if index == 26 {
            field_step::<i32>(
                address,
                Self::end_before(address, 26),
                field_context_text("Image"@, "nreferences"@),
                events,
                Ok(value.nreferences),
            )
        } else if index == 27 {
            field_step::<Option<Address>>(
                address,
                Self::end_before(address, 27),
                field_context_text("Image"@, "modules"@),
                events,
                Ok(value.modules),
            )
        } else if index == 28 {
            field_step::<u32>(
                address,
                Self::end_before(address, 28),
                field_context_text("Image"@, "module_count"@),
                events,
                Ok(value.module_count),
            )
        } else if index == 29 {
            field_step::<Option<Address>>(
                address,
                Self::end_before(address, 29),
                field_context_text("Image"@, "modules_loaded"@),
                events,
                Ok(value.modules_loaded),
            )
        } else if index == 30 {
            field_step::<Option<Address>>(
                address,
                Self::end_before(address, 30),
                field_context_text("Image"@, "files"@),
                events,
                Ok(value.files),
            )
        } else if index == 31 {
            field_step::<u32>(
                address,
                Self::end_before(address, 31),
                field_context_text("Image"@, "file_count"@),
                events,
                Ok(value.file_count),
            )
        } else if index == 32 {
            field_step::<Option<Address>>(
                address,
                Self::end_before(address, 32),
                field_context_text("Image"@, "aot_module"@),
                events,
                Ok(value.aot_module),
            )
        } else if index == 33 {
            field_step::<[u8; 16]>(
                address,
                Self::end_before(address, 33),
                field_context_text("Image"@, "aotid"@),
                events,
                Ok(value.aotid),
            )
        } else if index == 34 {
            field_step::<Option<Address>>(
                address,
                Self::end_before(address, 34),
                field_context_text("Image"@, "assembly"@),
                events,
                Ok(value.assembly),
            )
        } else if index == 35 {
            field_step::<Option<Address>>(
                address,
                Self::end_before(address, 35),
                field_context_text("Image"@, "method_cache"@),
                events,
                Ok(value.method_cache),
            )
        } else if index == 36 {
            field_step::<MonoInternalHashTable<Eager<Ptr<Class>>>>(
                address,
                Self::end_before(address, 36),
                field_context_text("Image"@, "class_cache"@),
                events,
                Ok(value.class_cache),
            )
        } else if index == 37 {
            field_step::<Option<Address>>(
                address,
                Self::end_before(address, 37),
                field_context_text("Image"@, "methodref_cache"@),
                events,
                Ok(value.methodref_cache),
            )
        } else if index == 38 {
            field_step::<Option<Address>>(
                address,
                Self::end_before(address, 38),
                field_context_text("Image"@, "field_cache"@),
                events,
                Ok(value.field_cache),
            )
        } else if index == 39 {
            field_step::<Option<Address>>(
                address,
                Self::end_before(address, 39),
                field_context_text("Image"@, "typespec_cache"@),
                events,
                Ok(value.typespec_cache),
            )
        } else if index == 40 {
            field_step::<Option<Address>>(
                address,
                Self::end_before(address, 40),
                field_context_text("Image"@, "memberref_signatures"@),
                events,
                Ok(value.memberref_signatures),
            )
        } else if index == 41 {
            field_step::<Option<Address>>(
                address,
                Self::end_before(address, 41),
                field_context_text("Image"@, "method_signatures"@),
                events,
                Ok(value.method_signatures),
            )
        } else if index == 42 {
            field_step::<Eager<Ptr<GHashTable<String, Eager<Ptr<GHashTable<String, u64>>>>>>>(
                address,
                Self::end_before(address, 42),
                field_context_text("Image"@, "name_cache"@),
                events,
                Ok(value.name_cache),
            )
        } else if index == 43 {
            field_step::<Option<Address>>(
                address,
                Self::end_before(address, 43),
                field_context_text("Image"@, "array_cache"@),
                events,
                Ok(value.array_cache),
            )
        } else if index == 44 {
            field_step::<Option<Address>>(
                address,
                Self::end_before(address, 44),
                field_context_text("Image"@, "ptr_cache"@),
                events,
                Ok(value.ptr_cache),
            )
        } else if index == 45 {
            field_step::<Option<Address>>(
                address,
                Self::end_before(address, 45),
                field_context_text("Image"@, "szarray_cache"@),
                events,
                Ok(value.szarray_cache),
            )
        } else if index == 46 {
            field_step::<[u8; 64]>(
                address,
                Self::end_before(address, 46),
                field_context_text("Image"@, "szarray_cache_lock"@),
                events,
                Ok(value.szarray_cache_lock),
            )
        } else if index == 47 {
            field_step::<Option<Address>>(
                address,
                Self::end_before(address, 47),
                field_context_text("Image"@, "native_func_wrapper_cache"@),
                events,
                Ok(value.native_func_wrapper_cache),
            )
        } else if index == 48 {
            field_step::<Option<Address>>(
                address,
                Self::end_before(address, 48),
                field_context_text("Image"@, "runtime_invoke_vcall_cache"@),
                events,
                Ok(value.runtime_invoke_vcall_cache),
            )
        } else if index == 49 {
            field_step::<Option<Address>>(
                address,
                Self::end_before(address, 49),
                field_context_text("Image"@, "wrapper_param_names"@),
                events,
                Ok(value.wrapper_param_names),
            )
        } else if index == 50 {
            field_step::<Option<Address>>(
                address,
                Self::end_before(address, 50),
                field_context_text("Image"@, "array_accessor_cache"@),
                events,
                Ok(value.array_accessor_cache),
            )
        } else if index == 51 {
            field_step::<Option<Address>>(
                address,
                Self::end_before(address, 51),
                field_context_text("Image"@, "ldfld_wrapper_cache"@),
                events,
                Ok(value.ldfld_wrapper_cache),
            )
        } else if index == 52 {
            field_step::<Option<Address>>(
                address,
                Self::end_before(address, 52),
                field_context_text("Image"@, "ldflda_wrapper_cache"@),
                events,
                Ok(value.ldflda_wrapper_cache),
            )
        } else if index == 53 {
            field_step::<Option<Address>>(
                address,
                Self::end_before(address, 53),
                field_context_text("Image"@, "stfld_wrapper_cache"@),
                events,
                Ok(value.stfld_wrapper_cache),
            )
        } else if index == 54 {
            field_step::<Option<Address>>(
                address,
                Self::end_before(address, 54),
                field_context_text("Image"@, "isinst_cache"@),
                events,
                Ok(value.isinst_cache),
            )
        } else if index == 55 {
            field_step::<Option<Address>>(
                address,
                Self::end_before(address, 55),
                field_context_text("Image"@, "icall_wrapper_cache"@),
                events,
                Ok(value.icall_wrapper_cache),
            )
        } else if index == 56 {
            field_step::<Option<Address>>(
                address,
                Self::end_before(address, 56),
                field_context_text("Image"@, "castclass_cache"@),
                events,
                Ok(value.castclass_cache),
            )
        } else if index == 57 {
            field_step::<Option<Address>>(
                address,
                Self::end_before(address, 57),
                field_context_text("Image"@, "proxy_isinst_cache"@),
                events,
                Ok(value.proxy_isinst_cache),
            )
        } else if index == 58 {
            field_step::<Option<Address>>(
                address,
                Self::end_before(address, 58),
                field_context_text("Image"@, "rgctx_template_hash"@),
                events,
                Ok(value.rgctx_template_hash),
            )
        } else if index == 59 {
            field_step::<Option<Address>>(
                address,
                Self::end_before(address, 59),
                field_context_text("Image"@, "property_hash"@),
                events,
                Ok(value.property_hash),
            )
        } else if index == 60 {
            field_step::<Option<Address>>(
                address,
                Self::end_before(address, 60),
                field_context_text("Image"@, "reflection_info"@),
                events,
                Ok(value.reflection_info),
            )
        } else if index == 61 {
            field_step::<Option<Address>>(
                address,
                Self::end_before(address, 61),
                field_context_text("Image"@, "user_info"@),
                events,
                Ok(value.user_info),
            )
        } else if index == 62 {
            field_step::<Option<Address>>(
                address,
                Self::end_before(address, 62),
                field_context_text("Image"@, "dll_map"@),
                events,
                Ok(value.dll_map),
            )
        } else if index == 63 {
            field_step::<Option<Address>>(
                address,
                Self::end_before(address, 63),
                field_context_text("Image"@, "interface_bitset"@),
                events,
                Ok(value.interface_bitset),
            )
        } else if index == 64 {
            field_step::<Option<Address>>(
                address,
                Self::end_before(address, 64),
                field_context_text("Image"@, "reflection_info_unregister_classes"@),
                events,
                Ok(value.reflection_info_unregister_classes),
            )
        } else if index == 65 {
            field_step::<Option<Address>>(
                address,
                Self::end_before(address, 65),
                field_context_text("Image"@, "image_sets"@),
                events,
                Ok(value.image_sets),
            )
        } else if index == 66 {
            field_step::<[Option<Address>; 21]>(
                address,
                Self::end_before(address, 66),
                field_context_text("Image"@, "wrapper_caches"@),
                events,
                Ok(value.wrapper_caches),
            )
        } else if index == 67 {
            field_step::<Option<Address>>(
                address,
                Self::end_before(address, 67),
                field_context_text("Image"@, "var_cache_fast"@),
                events,
                Ok(value.var_cache_fast),
            )
        } else if index == 68 {
            field_step::<Option<Address>>(
                address,
                Self::end_before(address, 68),
                field_context_text("Image"@, "mvar_cache_fast"@),
                events,
                Ok(value.mvar_cache_fast),
            )
        } else if index == 69 {
            field_step::<Option<Address>>(
                address,
                Self::end_before(address, 69),
                field_context_text("Image"@, "var_cache_slow"@),
                events,
                Ok(value.var_cache_slow),
            )
        } else if index == 70 {
            field_step::<Option<Address>>(
                address,
                Self::end_before(address, 70),
                field_context_text("Image"@, "mvar_cache_slow"@),
                events,
                Ok(value.mvar_cache_slow),
            )
        } else if index == 71 {
            field_step::<Option<Address>>(
                address,
                Self::end_before(address, 71),
                field_context_text("Image"@, "var_cache_constrained"@),
                events,
                Ok(value.var_cache_constrained),
            )
        } else if index == 72 {
            field_step::<Option<Address>>(
                address,
                Self::end_before(address, 72),
                field_context_text("Image"@, "mvar_cache_constrained"@),
                events,
                Ok(value.mvar_cache_constrained),
            )
        } else if index == 73 {
            field_step::<Option<Address>>(
                address,
                Self::end_before(address, 73),
                field_context_text("Image"@, "pinvoke_scopes"@),
                events,
                Ok(value.pinvoke_scopes),
            )
        } else if index == 74 {
            field_step::<Option<Address>>(
                address,
                Self::end_before(address, 74),
                field_context_text("Image"@, "pinvoke_scope_filenames"@),
                events,
                Ok(value.pinvoke_scope_filenames),
            )
        } else if index == 75 {
            field_step::<Option<Address>>(
                address,
                Self::end_before(address, 75),
                field_context_text("Image"@, "loader"@),
                events,
                Ok(value.loader),
            )
        } else if index == 76 {
            field_step::<Option<Address>>(
                address,
                Self::end_before(address, 76),
                field_context_text("Image"@, "anonymous_generic_class_container"@),
                events,
                Ok(value.anonymous_generic_class_container),
            )
        } else if index == 77 {
            field_step::<Option<Address>>(
                address,
                Self::end_before(address, 77),
                field_context_text("Image"@, "anonymous_generic_method_container"@),
                events,
                Ok(value.anonymous_generic_method_container),
            )
        } else if index == 78 {
            field_step::<bool>(
                address,
                Self::end_before(address, 78),
                field_context_text("Image"@, "weak_fields_inited"@),
                events,
                Ok(value.weak_fields_inited),
            )
        } else if index == 79 {
            field_step::<Option<Address>>(
                address,
                Self::end_before(address, 79),
                field_context_text("Image"@, "weak_field_indexes"@),
                events,
                Ok(value.weak_field_indexes),
            )
        } else {
            field_step::<[u8; 64]>(
                address,
                Self::end_before(address, 80),
                field_context_text("Image"@, "lock"@),
                events,
                Ok(value.lock),
            )
        }
    }

    /// What the reading of field `index` did to fail with `error`. Kept out of
    /// sight of the prover until it is revealed.
    #[verifier::opaque]
    pub open spec fn field_fails(address: Address, index: int, events: Seq<ReadEvent>, error: Error) -> bool {
        if index == 0 {
            field_step::<i32>(
                address,
                Self::end_before(address, 0),
                field_context_text("Image"@, "ref_count"@),
                events,
                Err(error),
            )
        } else if index == 1 {
            field_step::<Option<Address>>(
                address,
                Self::end_before(address, 1),
                field_context_text("Image"@, "raw_data_handle"@),
                events,
                Err(error),
            )
        } else if index == 2 {
            field_step::<Option<Address>>(
                address,
                Self::end_before(address, 2),
                field_context_text("Image"@, "raw_data"@),
                events,
                Err(error),
            )
        } else if index == 3 {
            field_step::<u32>(
                address,
                Self::end_before(address, 3),
                field_context_text("Image"@, "raw_data_len"@),
                events,
                Err(error),
            )
        } else if index == 4 {
            field_step::<[u8; 2]>(
                address,
                Self::end_before(address, 4),
                field_context_text("Image"@, "bitfields"@),
                events,
                Err(error),
            )
        } else if index == 5 {
            field_step::<String>(
                address,
                Self::end_before(address, 5),
                field_context_text("Image"@, "name"@),
                events,
                Err(error),
            )
        } else if index == 6 {
            field_step::<Option<String>>(
                address,
                Self::end_before(address, 6),
                field_context_text("Image"@, "assembly_name"@),
                events,
                Err(error),
            )
        } else if index == 7 {
            field_step::<Option<String>>(
                address,
                Self::end_before(address, 7),
                field_context_text("Image"@, "module_name"@),
                events,
                Err(error),
            )
        } else if index == 8 {
            field_step::<Option<String>>(
                address,
                Self::end_before(address, 8),
                field_context_text("Image"@, "version"@),
                events,
                Err(error),
            )
        } else if index == 9 {
            field_step::<i16>(
                address,
                Self::end_before(address, 9),
                field_context_text("Image"@, "md_version_major"@),
                events,
                Err(error),
            )
        } else if index == 10 {
            field_step::<i16>(
                address,
                Self::end_before(address, 10),
                field_context_text("Image"@, "md_version_minor"@),
                events,
                Err(error),
            )
        } else if index == 11 {
            field_step::<Option<String>>(
                address,
                Self::end_before(address, 11),
                field_context_text("Image"@, "guid"@),
                events,
                Err(error),
            )
        } else if index == 12 {
            field_step::<Option<Address>>(
                address,
                Self::end_before(address, 12),
                field_context_text("Image"@, "image_info"@),
                events,
                Err(error),
            )
        } else if index == 13 {
            field_step::<Option<Address>>(
                address,
                Self::end_before(address, 13),
                field_context_text("Image"@, "mempool"@),
                events,
                Err(error),
            )
        } else if index == 14 {
            field_step::<Option<Address>>(
                address,
                Self::end_before(address, 14),
                field_context_text("Image"@, "raw_metadata"@),
                events,
                Err(error),
            )
        } else if index == 15 {
            field_step::<MonoStreamHeader>(
                address,
                Self::end_before(address, 15),
                field_context_text("Image"@, "heap_strings"@),
                events,
                Err(error),
            )
        } else if index == 16 {
            field_step::<MonoStreamHeader>(
                address,
                Self::end_before(address, 16),
                field_context_text("Image"@, "heap_us"@),
                events,
                Err(error),
            )
        } else if index == 17 {
            field_step::<MonoStreamHeader>(
                address,
                Self::end_before(address, 17),
                field_context_text("Image"@, "heap_blob"@),
                events,
                Err(error),
            )
        } else if index == 18 {
            field_step::<MonoStreamHeader>(
                address,
                Self::end_before(address, 18),
                field_context_text("Image"@, "heap_guid"@),
                events,
                Err(error),
            )
        } else if index == 19 {
            field_step::<MonoStreamHeader>(
                address,
                Self::end_before(address, 19),
                field_context_text("Image"@, "heap_tables"@),
                events,
                Err(error),
            )
        } else if index == 20 {
            field_step::<MonoStreamHeader>(
                address,
                Self::end_before(address, 20),
                field_context_text("Image"@, "heap_pdb"@),
                events,
                Err(error),
            )
        } else if index == 21 {
            field_step::<Option<Address>>(
                address,
                Self::end_before(address, 21),
                field_context_text("Image"@, "tables_base"@),
                events,
                Err(error),
            )
        } else if index == 22 {
            field_step::<u64>(
                address,
                Self::end_before(address, 22),
                field_context_text("Image"@, "referenced_tables"@),
                events,
                Err(error),
            )
        } else if index == 23 {
            field_step::<Option<Address>>(
                address,
                Self::end_before(address, 23),
                field_context_text("Image"@, "referenced_table_rows"@),
                events,
                Err(error),
            )
        } else if index == 24 {
            field_step::<[MonoTableInfo; 56]>(
                address,
                Self::end_before(address, 24),
                field_context_text("Image"@, "tables"@),
                events,
                Err(error),
            )
        } else if index == 25 {
            field_step::<Option<Address>>(
                address,
                Self::end_before(address, 25),
                field_context_text("Image"@, "references"@),
                events,
                Err(error),
            )
        } else if index == 26 {
            field_step::<i32>(
                address,
                Self::end_before(address, 26),
                field_context_text("Image"@, "nreferences"@),
                events,
                Err(error),
            )
        } else if index == 27 {
            field_step::<Option<Address>>(
                address,
                Self::end_before(address, 27),
                field_context_text("Image"@, "modules"@),
                events,
                Err(error),
            )
        } else if index == 28 {
            field_step::<u32>(
                address,
                Self::end_before(address, 28),
                field_context_text("Image"@, "module_count"@),
                events,
                Err(error),
            )
        } else if index == 29 {
            field_step::<Option<Address>>(
                address,
                Self::end_before(address, 29),
                field_context_text("Image"@, "modules_loaded"@),
                events,
                Err(error),
            )
        } else if index == 30 {
            field_step::<Option<Address>>(
                address,
                Self::end_before(address, 30),
                field_context_text("Image"@, "files"@),
                events,
                Err(error),
            )
        } else if index == 31 {
            field_step::<u32>(
                address,
                Self::end_before(address, 31),
                field_context_text("Image"@, "file_count"@),
                events,
                Err(error),
            )
        } else if index == 32 {
            field_step::<Option<Address>>(
                address,
                Self::end_before(address, 32),
                field_context_text("Image"@, "aot_module"@),
                events,
                Err(error),
            )
        } else if index == 33 {
            field_step::<[u8; 16]>(
                address,
                Self::end_before(address, 33),
                field_context_text("Image"@, "aotid"@),
                events,
                Err(error),
            )
        } else if index == 34 {
            field_step::<Option<Address>>(
                address,
                Self::end_before(address, 34),
                field_context_text("Image"@, "assembly"@),
                events,
                Err(error),
            )
        } else if index == 35 {
            field_step::<Option<Address>>(
                address,
                Self::end_before(address, 35),
                field_context_text("Image"@, "method_cache"@),
                events,
                Err(error),
            )
        } else if index == 36 {
            field_step::<MonoInternalHashTable<Eager<Ptr<Class>>>>(
                address,
                Self::end_before(address, 36),
                field_context_text("Image"@, "class_cache"@),
                events,
                Err(error),
            )
        } else if index == 37 {
            field_step::<Option<Address>>(
                address,
                Self::end_before(address, 37),
                field_context_text("Image"@, "methodref_cache"@),
                events,
                Err(error),
            )
        } else if index == 38 {
            field_step::<Option<Address>>(
                address,
                Self::end_before(address, 38),
                field_context_text("Image"@, "field_cache"@),
                events,
                Err(error),
            )
        } else if index == 39 {
            field_step::<Option<Address>>(
                address,
                Self::end_before(address, 39),
                field_context_text("Image"@, "typespec_cache"@),
                events,
                Err(error),
            )
        } else if index == 40 {
            field_step::<Option<Address>>(
                address,
                Self::end_before(address, 40),
                field_context_text("Image"@, "memberref_signatures"@),
                events,
                Err(error),
            )
        } else if index == 41 {
            field_step::<Option<Address>>(
                address,
                Self::end_before(address, 41),
                field_context_text("Image"@, "method_signatures"@),
                events,
                Err(error),
            )
        } else if index == 42 {
            field_step::<Eager<Ptr<GHashTable<String, Eager<Ptr<GHashTable<String, u64>>>>>>>(
                address,
                Self::end_before(address, 42),
                field_context_text("Image"@, "name_cache"@),
                events,
                Err(error),
            )
        } else if index == 43 {
            field_step::<Option<Address>>(
                address,
                Self::end_before(address, 43),
                field_context_text("Image"@, "array_cache"@),
                events,
                Err(error),
            )
        } else if index == 44 {
            field_step::<Option<Address>>(
                address,
                Self::end_before(address, 44),
                field_context_text("Image"@, "ptr_cache"@),
                events,
                Err(error),
            )
        } else if index == 45 {
            field_step::<Option<Address>>(
                address,
                Self::end_before(address, 45),
                field_context_text("Image"@, "szarray_cache"@),
                events,
                Err(error),
            )
        } else if index == 46 {
            field_step::<[u8; 64]>(
                address,
                Self::end_before(address, 46),
                field_context_text("Image"@, "szarray_cache_lock"@),
                events,
                Err(error),
            )
        } else if index == 47 {
            field_step::<Option<Address>>(
                address,
                Self::end_before(address, 47),
                field_context_text("Image"@, "native_func_wrapper_cache"@),
                events,
                Err(error),
            )
        } else if index == 48 {
            field_step::<Option<Address>>(
                address,
                Self::end_before(address, 48),
                field_context_text("Image"@, "runtime_invoke_vcall_cache"@),
                events,
                Err(error),
            )
        } else if index == 49 {
            field_step::<Option<Address>>(
                address,
                Self::end_before(address, 49),
                field_context_text("Image"@, "wrapper_param_names"@),
                events,
                Err(error),
            )
        } else if index == 50 {
            field_step::<Option<Address>>(
                address,
                Self::end_before(address, 50),
                field_context_text("Image"@, "array_accessor_cache"@),
                events,
                Err(error),
            )
        } else if index == 51 {
            field_step::<Option<Address>>(
                address,
                Self::end_before(address, 51),
                field_context_text("Image"@, "ldfld_wrapper_cache"@),
                events,
                Err(error),
            )
        } else if index == 52 {
            field_step::<Option<Address>>(
                address,
                Self::end_before(address, 52),
                field_context_text("Image"@, "ldflda_wrapper_cache"@),
                events,
                Err(error),
            )
        } else if index == 53 {
            field_step::<Option<Address>>(
                address,
                Self::end_before(address, 53),
                field_context_text("Image"@, "stfld_wrapper_cache"@),
                events,
                Err(error),
            )
        } else if index == 54 {
            field_step::<Option<Address>>(
                address,
                Self::end_before(address, 54),
                field_context_text("Image"@, "isinst_cache"@),
                events,
                Err(error),
            )
        } else if index == 55 {
            field_step::<Option<Address>>(
                address,
                Self::end_before(address, 55),
                field_context_text("Image"@, "icall_wrapper_cache"@),
                events,
                Err(error),
            )
        } else if index == 56 {
            field_step::<Option<Address>>(
                address,
                Self::end_before(address, 56),
                field_context_text("Image"@, "castclass_cache"@),
                events,
                Err(error),
            )
        } else if index == 57 {
            field_step::<Option<Address>>(
                address,
                Self::end_before(address, 57),
                field_context_text("Image"@, "proxy_isinst_cache"@),
                events,
                Err(error),
            )
        } else if index == 58 {
            field_step::<Option<Address>>(
                address,
                Self::end_before(address, 58),
                field_context_text("Image"@, "rgctx_template_hash"@),
                events,
                Err(error),
            )
        } else if index == 59 {
            field_step::<Option<Address>>(
                address,
                Self::end_before(address, 59),
                field_context_text("Image"@, "property_hash"@),
                events,
                Err(error),
            )
        } else if index == 60 {
            field_step::<Option<Address>>(
                address,
                Self::end_before(address, 60),
                field_context_text("Image"@, "reflection_info"@),
                events,
                Err(error),
            )
        } else if index == 61 {
            field_step::<Option<Address>>(
                address,
                Self::end_before(address, 61),
                field_context_text("Image"@, "user_info"@),
                events,
                Err(error),
            )
        } else if index == 62 {
            field_step::<Option<Address>>(
                address,
                Self::end_before(address, 62),
                field_context_text("Image"@, "dll_map"@),
                events,
                Err(error),
            )
        } else if index == 63 {
            field_step::<Option<Address>>(
                address,
                Self::end_before(address, 63),
                field_context_text("Image"@, "interface_bitset"@),
                events,
                Err(error),
            )
        } else if index == 64 {
            field_step::<Option<Address>>(
                address,
                Self::end_before(address, 64),
                field_context_text("Image"@, "reflection_info_unregister_classes"@),
                events,
                Err(error),
            )
        } else if index == 65 {
            field_step::<Option<Address>>(
                address,
                Self::end_before(address, 65),
                field_context_text("Image"@, "image_sets"@),
                events,
                Err(error),
            )
        } else if index == 66 {
            field_step::<[Option<Address>; 21]>(
                address,
                Self::end_before(address, 66),
                field_context_text("Image"@, "wrapper_caches"@),
                events,
                Err(error),
            )
        } else if index == 67 {
            field_step::<Option<Address>>(
                address,
                Self::end_before(address, 67),
                field_context_text("Image"@, "var_cache_fast"@),
                events,
                Err(error),
            )
        } else if index == 68 {
            field_step::<Option<Address>>(
                address,
                Self::end_before(address, 68),
                field_context_text("Image"@, "mvar_cache_fast"@),
                events,
                Err(error),
            )
        } else if index == 69 {
            field_step::<Option<Address>>(
                address,
                Self::end_before(address, 69),
                field_context_text("Image"@, "var_cache_slow"@),
                events,
                Err(error),
            )
        } else if index == 70 {
            field_step::<Option<Address>>(
                address,
                Self::end_before(address, 70),
                field_context_text("Image"@, "mvar_cache_slow"@),
                events,
                Err(error),
            )
        } else if index == 71 {
            field_step::<Option<Address>>(
                address,
                Self::end_before(address, 71),
                field_context_text("Image"@, "var_cache_constrained"@),
                events,
                Err(error),
            )
        } else if index == 72 {
            field_step::<Option<Address>>(
                address,
                Self::end_before(address, 72),
                field_context_text("Image"@, "mvar_cache_constrained"@),
                events,
                Err(error),
            )
        } else if index == 73 {
            field_step::<Option<Address>>(
                address,
                Self::end_before(address, 73),
                field_context_text("Image"@, "pinvoke_scopes"@),
                events,
                Err(error),
            )
        } else if index == 74 {
            field_step::<Option<Address>>(
                address,
                Self::end_before(address, 74),
                field_context_text("Image"@, "pinvoke_scope_filenames"@),
                events,
                Err(error),
            )
        } else if index == 75 {
            field_step::<Option<Address>>(
                address,
                Self::end_before(address, 75),
                field_context_text("Image"@, "loader"@),
                events,
                Err(error),
            )
        } else if index == 76 {
            field_step::<Option<Address>>(
                address,
                Self::end_before(address, 76),
                field_context_text("Image"@, "anonymous_generic_class_container"@),
                events,
                Err(error),
            )
        } else if index == 77 {
            field_step::<Option<Address>>(
                address,
                Self::end_before(address, 77),
                field_context_text("Image"@, "anonymous_generic_method_container"@),
                events,
                Err(error),
            )
        } else if index == 78 {
            field_step::<bool>(
                address,
                Self::end_before(address, 78),
                field_context_text("Image"@, "weak_fields_inited"@),
                events,
                Err(error),
            )
        } else if index == 79 {
            field_step::<Option<Address>>(
                address,
                Self::end_before(address, 79),
                field_context_text("Image"@, "weak_field_indexes"@),
                events,
                Err(error),
            )
        } else {
            field_step::<[u8; 64]>(
                address,
                Self::end_before(address, 80),
                field_context_text("Image"@, "lock"@),
                events,
                Err(error),
            )
        }
    }

    /// What the reading of each field did, for the fields of `value`.
    pub open spec fn fields_read(address: Address, value: Self) -> spec_fn(int, Seq<ReadEvent>) -> bool {
        |index: int, events: Seq<ReadEvent>| Self::field_read(address, value, index, events)
    }

    /// The fields of `value` were read in declaration order, each at the end of
    /// the one before it rounded up to its own alignment, with exactly the
    /// requests in `events`.
    pub open spec fn reads_fields(address: Address, events: Seq<ReadEvent>, value: Self) -> bool {
        exists|cuts: Seq<int>| #[trigger]
            stretches(81, cuts, events, Self::fields_read(address, value)) && cuts.last() == events.len()
    }

    /// The reading ended with a field that could not be read: `error` is that
    /// field's error, wrapped in a context that names the field.
    pub open spec fn fails_at_field(address: Address, events: Seq<ReadEvent>, error: Error) -> bool {
        exists|index: int, cut: int|
            0 <= index < 81 && 0 <= cut <= events.len() && #[trigger] Self::field_fails(
                address,
                index,
                events.skip(cut),
                error,
            )
    }

    /// When a history grew through one state for each field, and what was added
    /// from each state to the next is the reading of that field of `value`, the
    /// whole of what was added is the reading of `value`.
    pub proof fn lemma_reads_fields(address: Address, value: Self, histories: Seq<Seq<ReadEvent>>)
        requires
            histories.len() == 82,
            forall|i: int|
                0 <= i < 81 ==> (#[trigger] histories[i]).is_prefix_of(histories[i + 1]) && Self::field_read(
                    address,
                    value,
                    i,
                    events_since(histories[i], histories[i + 1]),
                ),
        ensures
            Self::reads_fields(address, events_since(histories[0], histories[81]), value),
    {
        let step = Self::fields_read(address, value);
        assert forall|i: int| 0 <= i < 81 implies (#[trigger] histories[i]).is_prefix_of(histories[i + 1]) && step(
            i,
            events_since(histories[i], histories[i + 1]),
        ) by {
            assert(Self::field_read(address, value, i, events_since(histories[i], histories[i + 1])));
        }
        let cuts = lemma_stretches_chain(81, histories, step);
        assert(stretches(81, cuts, events_since(histories[0], histories[81]), Self::fields_read(address, value)));
    }

    /// The size and alignment of the structure are those of its fields laid
    /// out in declaration order.
    pub proof fn lemma_fields()
        ensures
            fields_aligned(Self::fields()),
            Self::fields().len() == 81,
    {
        <i32>::lemma_layout();
        <Option<Address>>::lemma_layout();
        <Option<Address>>::lemma_layout();
        <u32>::lemma_layout();
        <[u8; 2]>::lemma_layout();
        <String>::lemma_layout();
        <Option<String>>::lemma_layout();
        <Option<String>>::lemma_layout();
        <Option<String>>::lemma_layout();
        <i16>::lemma_layout();
        <i16>::lemma_layout();
        <Option<String>>::lemma_layout();
        <Option<Address>>::lemma_layout();
        <Option<Address>>::lemma_layout();
        <Option<Address>>::lemma_layout();
        <MonoStreamHeader>::lemma_layout();
        <MonoStreamHeader>::lemma_layout();
        <MonoStreamHeader>::lemma_layout();
        <MonoStreamHeader>::lemma_layout();
        <MonoStreamHeader>::lemma_layout();
        <MonoStreamHeader>::lemma_layout();
        <Option<Address>>::lemma_layout();
        <u64>::lemma_layout();
        <Option<Address>>::lemma_layout();
        <[MonoTableInfo; 56]>::lemma_layout();
        <Option<Address>>::lemma_layout();
        <i32>::lemma_layout();
        <Option<Address>>::lemma_layout();
        <u32>::lemma_layout();
        <Option<Address>>::lemma_layout();
        <Option<Address>>::lemma_layout();
        <u32>::lemma_layout();
        <Option<Address>>::lemma_layout();
        <[u8; 16]>::lemma_layout();
        <Option<Address>>::lemma_layout();
        <Option<Address>>::lemma_layout();
        <MonoInternalHashTable<Eager<Ptr<Class>>>>::lemma_layout();
        <Option<Address>>::lemma_layout();
        <Option<Address>>::lemma_layout();
        <Option<Address>>::lemma_layout();
        <Option<Address>>::lemma_layout();
        <Option<Address>>::lemma_layout();
        <Eager<Ptr<GHashTable<String, Eager<Ptr<GHashTable<String, u64>>>>>>>::lemma_layout();
        <Option<Address>>::lemma_layout();
        <Option<Address>>::lemma_layout();
        <Option<Address>>::lemma_layout();
        <[u8; 64]>::lemma_layout();
        <Option<Address>>::lemma_layout();
        <Option<Address>>::lemma_layout();
        <Option<Address>>::lemma_layout();
        <Option<Address>>::lemma_layout();
        <Option<Address>>::lemma_layout();
        <Option<Address>>::lemma_layout();
        <Option<Address>>::lemma_layout();
        <Option<Address>>::lemma_layout();
        <Option<Address>>::lemma_layout();
        <Option<Address>>::lemma_layout();
        <Option<Address>>::lemma_layout();
        <Option<Address>>::lemma_layout();
        <Option<Address>>::lemma_layout();
        <Option<Address>>::lemma_layout();
        <Option<Address>>::lemma_layout();
        <Option<Address>>::lemma_layout();
        <Option<Address>>::lemma_layout();
        <Option<Address>>::lemma_layout();
        <Option<Address>>::lemma_layout();
        <[Option<Address>; 21]>::lemma_layout();
        <Option<Address>>::lemma_layout();
        <Option<Address>>::lemma_layout();
        <Option<Address>>::lemma_layout();
        <Option<Address>>::lemma_layout();
        <Option<Address>>::lemma_layout();
        <Option<Address>>::lemma_layout();
        <Option<Address>>::lemma_layout();
        <Option<Address>>::lemma_layout();
        <Option<Address>>::lemma_layout();
        <Option<Address>>::lemma_layout();
        <Option<Address>>::lemma_layout();
        <bool>::lemma_layout();
        <Option<Address>>::lemma_layout();
        <[u8; 64]>::lemma_layout();
    }
}

impl Image {
    /// The size and the alignment of the structure are those of its fields laid
    /// out in declaration order.
    pub proof fn lemma_size()
        ensures
            <Self as Deserialize>::NUM_BYTES == struct_num_bytes(Self::fields()),
            <Self as Deserialize>::ALIGNMENT == struct_alignment(Self::fields()),
    {
        Self::lemma_fields();
        lemma_small_powers_of_two();
        <Eager<Ptr<GHashTable<String, Eager<Ptr<GHashTable<String, u64>>>>>>>::lemma_layout();
        <MonoInternalHashTable<Eager<Ptr<Class>>>>::lemma_layout();
        <MonoStreamHeader>::lemma_layout();
        <Option<Address>>::lemma_layout();
        <Option<String>>::lemma_layout();
        <String>::lemma_layout();
        <[MonoTableInfo; 56]>::lemma_layout();
        <[Option<Address>; 21]>::lemma_layout();
        <[u8; 16]>::lemma_layout();
        <[u8; 2]>::lemma_layout();
        <[u8; 64]>::lemma_layout();
        <bool>::lemma_layout();
        <i16>::lemma_layout();
        <i32>::lemma_layout();
        <u32>::lemma_layout();
        <u64>::lemma_layout();
        assert(end_after(0, Self::fields(), 0) == 0);
        assert(alignment_among(Self::fields(), 0) == 1);
        assert(Self::fields()[0] == FieldLayout { num_bytes: 4, alignment: 4 });
        assert(end_after(0, Self::fields(), 1) == 4);
        assert(Self::fields()[1] == FieldLayout { num_bytes: 8, alignment: 8 });
        assert(end_after(0, Self::fields(), 2) == 16);
        assert(Self::fields()[2] == FieldLayout { num_bytes: 8, alignment: 8 });
        assert(end_after(0, Self::fields(), 3) == 24);
        assert(Self::fields()[3] == FieldLayout { num_bytes: 4, alignment: 4 });
        assert(end_after(0, Self::fields(), 4) == 28);
        assert(Self::fields()[4] == FieldLayout { num_bytes: 2, alignment: 1 });
        assert(end_after(0, Self::fields(), 5) == 30);
        assert(Self::fields()[5] == FieldLayout { num_bytes: 8, alignment: 8 });
        assert(end_after(0, Self::fields(), 6) == 40);
        assert(Self::fields()[6] == FieldLayout { num_bytes: 8, alignment: 8 });
        assert(end_after(0, Self::fields(), 7) == 48);
        assert(Self::fields()[7] == FieldLayout { num_bytes: 8, alignment: 8 });
        assert(end_after(0, Self::fields(), 8) == 56);
        assert(Self::fields()[8] == FieldLayout { num_bytes: 8, alignment: 8 });
        assert(end_after(0, Self::fields(), 9) == 64);
        assert(Self::fields()[9] == FieldLayout { num_bytes: 2, alignment: 2 });
        assert(end_after(0, Self::fields(), 10) == 66);
        assert(Self::fields()[10] == FieldLayout { num_bytes: 2, alignment: 2 });
        assert(end_after(0, Self::fields(), 11) == 68);
        assert(Self::fields()[11] == FieldLayout { num_bytes: 8, alignment: 8 });
        assert(end_after(0, Self::fields(), 12) == 80);
        assert(Self::fields()[12] == FieldLayout { num_bytes: 8, alignment: 8 });
        assert(end_after(0, Self::fields(), 13) == 88);
        assert(Self::fields()[13] == FieldLayout { num_bytes: 8, alignment: 8 });
        assert(end_after(0, Self::fields(), 14) == 96);
        assert(Self::fields()[14] == FieldLayout { num_bytes: 8, alignment: 8 });
        assert(end_after(0, Self::fields(), 15) == 104);
        assert(Self::fields()[15] == FieldLayout { num_bytes: 12, alignment: 8 });
        assert(end_after(0, Self::fields(), 16) == 116);
        assert(Self::fields()[16] == FieldLayout { num_bytes: 12, alignment: 8 });
        assert(end_after(0, Self::fields(), 17) == 132);
        assert(Self::fields()[17] == FieldLayout { num_bytes: 12, alignment: 8 });
        assert(end_after(0, Self::fields(), 18) == 148);
        assert(Self::fields()[18] == FieldLayout { num_bytes: 12, alignment: 8 });
        assert(end_after(0, Self::fields(), 19) == 164);
        assert(Self::fields()[19] == FieldLayout { num_bytes: 12, alignment: 8 });
        assert(end_after(0, Self::fields(), 20) == 180);
        assert(Self::fields()[20] == FieldLayout { num_bytes: 12, alignment: 8 });
        assert(end_after(0, Self::fields(), 21) == 196);
        assert(Self::fields()[21] == FieldLayout { num_bytes: 8, alignment: 8 });
        assert(end_after(0, Self::fields(), 22) == 208);
        assert(Self::fields()[22] == FieldLayout { num_bytes: 8, alignment: 8 });
        assert(end_after(0, Self::fields(), 23) == 216);
        assert(Self::fields()[23] == FieldLayout { num_bytes: 8, alignment: 8 });
        assert(end_after(0, Self::fields(), 24) == 224);
        assert(Self::fields()[24] == FieldLayout { num_bytes: 896, alignment: 8 });
        assert(end_after(0, Self::fields(), 25) == 1120);
        assert(Self::fields()[25] == FieldLayout { num_bytes: 8, alignment: 8 });
        assert(end_after(0, Self::fields(), 26) == 1128);
        assert(Self::fields()[26] == FieldLayout { num_bytes: 4, alignment: 4 });
        assert(end_after(0, Self::fields(), 27) == 1132);
        assert(Self::fields()[27] == FieldLayout { num_bytes: 8, alignment: 8 });
        assert(end_after(0, Self::fields(), 28) == 1144);
        assert(Self::fields()[28] == FieldLayout { num_bytes: 4, alignment: 4 });
        assert(end_after(0, Self::fields(), 29) == 1148);
        assert(Self::fields()[29] == FieldLayout { num_bytes: 8, alignment: 8 });
        assert(end_after(0, Self::fields(), 30) == 1160);
        assert(Self::fields()[30] == FieldLayout { num_bytes: 8, alignment: 8 });
        assert(end_after(0, Self::fields(), 31) == 1168);
        assert(Self::fields()[31] == FieldLayout { num_bytes: 4, alignment: 4 });
        assert(end_after(0, Self::fields(), 32) == 1172);
        assert(Self::fields()[32] == FieldLayout { num_bytes: 8, alignment: 8 });
        assert(end_after(0, Self::fields(), 33) == 1184);
        assert(Self::fields()[33] == FieldLayout { num_bytes: 16, alignment: 1 });
        assert(end_after(0, Self::fields(), 34) == 1200);
        assert(Self::fields()[34] == FieldLayout { num_bytes: 8, alignment: 8 });
        assert(end_after(0, Self::fields(), 35) == 1208);
        assert(Self::fields()[35] == FieldLayout { num_bytes: 8, alignment: 8 });
        assert(end_after(0, Self::fields(), 36) == 1216);
        assert(Self::fields()[36] == FieldLayout { num_bytes: 40, alignment: 8 });
        assert(end_after(0, Self::fields(), 37) == 1256);
        assert(Self::fields()[37] == FieldLayout { num_bytes: 8, alignment: 8 });
        assert(end_after(0, Self::fields(), 38) == 1264);
        assert(Self::fields()[38] == FieldLayout { num_bytes: 8, alignment: 8 });
        assert(end_after(0, Self::fields(), 39) == 1272);
        assert(Self::fields()[39] == FieldLayout { num_bytes: 8, alignment: 8 });
        assert(end_after(0, Self::fields(), 40) == 1280);
        assert(Self::fields()[40] == FieldLayout { num_bytes: 8, alignment: 8 });
        assert(end_after(0, Self::fields(), 41) == 1288);
        assert(Self::fields()[41] == FieldLayout { num_bytes: 8, alignment: 8 });
        assert(end_after(0, Self::fields(), 42) == 1296);
        assert(Self::fields()[42] == FieldLayout { num_bytes: 8, alignment: 8 });
        assert(end_after(0, Self::fields(), 43) == 1304);
        assert(Self::fields()[43] == FieldLayout { num_bytes: 8, alignment: 8 });
        assert(end_after(0, Self::fields(), 44) == 1312);
        assert(Self::fields()[44] == FieldLayout { num_bytes: 8, alignment: 8 });
        assert(end_after(0, Self::fields(), 45) == 1320);
        assert(Self::fields()[45] == FieldLayout { num_bytes: 8, alignment: 8 });
        assert(end_after(0, Self::fields(), 46) == 1328);
        assert(Self::fields()[46] == FieldLayout { num_bytes: 64, alignment: 1 });
        assert(end_after(0, Self::fields(), 47) == 1392);
        assert(Self::fields()[47] == FieldLayout { num_bytes: 8, alignment: 8 });
        assert(end_after(0, Self::fields(), 48) == 1400);
        assert(Self::fields()[48] == FieldLayout { num_bytes: 8, alignment: 8 });
        assert(end_after(0, Self::fields(), 49) == 1408);
        assert(Self::fields()[49] == FieldLayout { num_bytes: 8, alignment: 8 });
        assert(end_after(0, Self::fields(), 50) == 1416);
        assert(Self::fields()[50] == FieldLayout { num_bytes: 8, alignment: 8 });
        assert(end_after(0, Self::fields(), 51) == 1424);
        assert(Self::fields()[51] == FieldLayout { num_bytes: 8, alignment: 8 });
        assert(end_after(0, Self::fields(), 52) == 1432);
        assert(Self::fields()[52] == FieldLayout { num_bytes: 8, alignment: 8 });
        assert(end_after(0, Self::fields(), 53) == 1440);
        assert(Self::fields()[53] == FieldLayout { num_bytes: 8, alignment: 8 });
        assert(end_after(0, Self::fields(), 54) == 1448);
        assert(Self::fields()[54] == FieldLayout { num_bytes: 8, alignment: 8 });
        assert(end_after(0, Self::fields(), 55) == 1456);
        assert(Self::fields()[55] == FieldLayout { num_bytes: 8, alignment: 8 });
        assert(end_after(0, Self::fields(), 56) == 1464);
        assert(Self::fields()[56] == FieldLayout { num_bytes: 8, alignment: 8 });
        assert(end_after(0, Self::fields(), 57) == 1472);
        assert(Self::fields()[57] == FieldLayout { num_bytes: 8, alignment: 8 });
        assert(end_after(0, Self::fields(), 58) == 1480);
        assert(Self::fields()[58] == FieldLayout { num_bytes: 8, alignment: 8 });
        assert(end_after(0, Self::fields(), 59) == 1488);
        assert(Self::fields()[59] == FieldLayout { num_bytes: 8, alignment: 8 });
        assert(end_after(0, Self::fields(), 60) == 1496);
        assert(Self::fields()[60] == FieldLayout { num_bytes: 8, alignment: 8 });
        assert(end_after(0, Self::fields(), 61) == 1504);
        assert(Self::fields()[61] == FieldLayout { num_bytes: 8, alignment: 8 });
        assert(end_after(0, Self::fields(), 62) == 1512);
        assert(Self::fields()[62] == FieldLayout { num_bytes: 8, alignment: 8 });
        assert(end_after(0, Self::fields(), 63) == 1520);
        assert(Self::fields()[63] == FieldLayout { num_bytes: 8, alignment: 8 });
        assert(end_after(0, Self::fields(), 64) == 1528);
        assert(Self::fields()[64] == FieldLayout { num_bytes: 8, alignment: 8 });
        assert(end_after(0, Self::fields(), 65) == 1536);
        assert(Self::fields()[65] == FieldLayout { num_bytes: 8, alignment: 8 });
        assert(end_after(0, Self::fields(), 66) == 1544);
        assert(Self::fields()[66] == FieldLayout { num_bytes: 168, alignment: 8 });
        assert(end_after(0, Self::fields(), 67) == 1712);
        assert(Self::fields()[67] == FieldLayout { num_bytes: 8, alignment: 8 });
        assert(end_after(0, Self::fields(), 68) == 1720);
        assert(Self::fields()[68] == FieldLayout { num_bytes: 8, alignment: 8 });
        assert(end_after(0, Self::fields(), 69) == 1728);
        assert(Self::fields()[69] == FieldLayout { num_bytes: 8, alignment: 8 });
        assert(end_after(0, Self::fields(), 70) == 1736);
        assert(Self::fields()[70] == FieldLayout { num_bytes: 8, alignment: 8 });
        assert(end_after(0, Self::fields(), 71) == 1744);
        assert(Self::fields()[71] == FieldLayout { num_bytes: 8, alignment: 8 });
        assert(end_after(0, Self::fields(), 72) == 1752);
        assert(Self::fields()[72] == FieldLayout { num_bytes: 8, alignment: 8 });
        assert(end_after(0, Self::fields(), 73) == 1760);
        assert(Self::fields()[73] == FieldLayout { num_bytes: 8, alignment: 8 });
        assert(end_after(0, Self::fields(), 74) == 1768);
        assert(Self::fields()[74] == FieldLayout { num_bytes: 8, alignment: 8 });
        assert(end_after(0, Self::fields(), 75) == 1776);
        assert(Self::fields()[75] == FieldLayout { num_bytes: 8, alignment: 8 });
        assert(end_after(0, Self::fields(), 76) == 1784);
        assert(Self::fields()[76] == FieldLayout { num_bytes: 8, alignment: 8 });
        assert(end_after(0, Self::fields(), 77) == 1792);
        assert(Self::fields()[77] == FieldLayout { num_bytes: 8, alignment: 8 });
        assert(end_after(0, Self::fields(), 78) == 1800);
        assert(Self::fields()[78] == FieldLayout { num_bytes: 1, alignment: 1 });
        assert(end_after(0, Self::fields(), 79) == 1801);
        assert(Self::fields()[79] == FieldLayout { num_bytes: 8, alignment: 8 });
        assert(end_after(0, Self::fields(), 80) == 1816);
        assert(Self::fields()[80] == FieldLayout { num_bytes: 64, alignment: 1 });
        assert(end_after(0, Self::fields(), 81) == 1880);
        assert(alignment_among(Self::fields(), 1) == 4);
        assert(alignment_among(Self::fields(), 2) == 8);
        assert(alignment_among(Self::fields(), 3) == 8);
        assert(alignment_among(Self::fields(), 4) == 8);
        assert(alignment_among(Self::fields(), 5) == 8);
        assert(alignment_among(Self::fields(), 6) == 8);
        assert(alignment_among(Self::fields(), 7) == 8);
        assert(alignment_among(Self::fields(), 8) == 8);
        assert(alignment_among(Self::fields(), 9) == 8);
        assert(alignment_among(Self::fields(), 10) == 8);
        assert(alignment_among(Self::fields(), 11) == 8);
        assert(alignment_among(Self::fields(), 12) == 8);
        assert(alignment_among(Self::fields(), 13) == 8);
        assert(alignment_among(Self::fields(), 14) == 8);
        assert(alignment_among(Self::fields(), 15) == 8);
        assert(alignment_among(Self::fields(), 16) == 8);
        assert(alignment_among(Self::fields(), 17) == 8);
        assert(alignment_among(Self::fields(), 18) == 8);
        assert(alignment_among(Self::fields(), 19) == 8);
        assert(alignment_among(Self::fields(), 20) == 8);
        assert(alignment_among(Self::fields(), 21) == 8);
        assert(alignment_among(Self::fields(), 22) == 8);
        assert(alignment_among(Self::fields(), 23) == 8);
        assert(alignment_among(Self::fields(), 24) == 8);
        assert(alignment_among(Self::fields(), 25) == 8);
        assert(alignment_among(Self::fields(), 26) == 8);
        assert(alignment_among(Self::fields(), 27) == 8);
        assert(alignment_among(Self::fields(), 28) == 8);
        assert(alignment_among(Self::fields(), 29) == 8);
        assert(alignment_among(Self::fields(), 30) == 8);
        assert(alignment_among(Self::fields(), 31) == 8);
        assert(alignment_among(Self::fields(), 32) == 8);
        assert(alignment_among(Self::fields(), 33) == 8);
        assert(alignment_among(Self::fields(), 34) == 8);
        assert(alignment_among(Self::fields(), 35) == 8);
        assert(alignment_among(Self::fields(), 36) == 8);
        assert(alignment_among(Self::fields(), 37) == 8);
        assert(alignment_among(Self::fields(), 38) == 8);
        assert(alignment_among(Self::fields(), 39) == 8);
        assert(alignment_among(Self::fields(), 40) == 8);
        assert(alignment_among(Self::fields(), 41) == 8);
        assert(alignment_among(Self::fields(), 42) == 8);
        assert(alignment_among(Self::fields(), 43) == 8);
        assert(alignment_among(Self::fields(), 44) == 8);
        assert(alignment_among(Self::fields(), 45) == 8);
        assert(alignment_among(Self::fields(), 46) == 8);
        assert(alignment_among(Self::fields(), 47) == 8);
        assert(alignment_among(Self::fields(), 48) == 8);
        assert(alignment_among(Self::fields(), 49) == 8);
        assert(alignment_among(Self::fields(), 50) == 8);
        assert(alignment_among(Self::fields(), 51) == 8);
        assert(alignment_among(Self::fields(), 52) == 8);
        assert(alignment_among(Self::fields(), 53) == 8);
        assert(alignment_among(Self::fields(), 54) == 8);
        assert(alignment_among(Self::fields(), 55) == 8);
        assert(alignment_among(Self::fields(), 56) == 8);
        assert(alignment_among(Self::fields(), 57) == 8);
        assert(alignment_among(Self::fields(), 58) == 8);
        assert(alignment_among(Self::fields(), 59) == 8);
        assert(alignment_among(Self::fields(), 60) == 8);
        assert(alignment_among(Self::fields(), 61) == 8);
        assert(alignment_among(Self::fields(), 62) == 8);
        assert(alignment_among(Self::fields(), 63) == 8);
        assert(alignment_among(Self::fields(), 64) == 8);
        assert(alignment_among(Self::fields(), 65) == 8);
        assert(alignment_among(Self::fields(), 66) == 8);
        assert(alignment_among(Self::fields(), 67) == 8);
        assert(alignment_among(Self::fields(), 68) == 8);
        assert(alignment_among(Self::fields(), 69) == 8);
        assert(alignment_among(Self::fields(), 70) == 8);
        assert(alignment_among(Self::fields(), 71) == 8);
        assert(alignment_among(Self::fields(), 72) == 8);
        assert(alignment_among(Self::fields(), 73) == 8);
        assert(alignment_among(Self::fields(), 74) == 8);
        assert(alignment_among(Self::fields(), 75) == 8);
        assert(alignment_among(Self::fields(), 76) == 8);
        assert(alignment_among(Self::fields(), 77) == 8);
        assert(alignment_among(Self::fields(), 78) == 8);
        assert(alignment_among(Self::fields(), 79) == 8);
        assert(alignment_among(Self::fields(), 80) == 8);
        assert(alignment_among(Self::fields(), 81) == 8);
    }
}

/// The fields 0 to 9 of a structure, as they come out of memory.
struct ImagePart0 {
    field0: i32,
    field1: Option<Address>,
    field2: Option<Address>,
    field3: u32,
    field4: [u8; 2],
    field5: String,
    field6: Option<String>,
    field7: Option<String>,
    field8: Option<String>,
    field9: i16,
}

/// The fields 10 to 19 of a structure, as they come out of memory.
struct ImagePart1 {
    field10: i16,
    field11: Option<String>,
    field12: Option<Address>,
    field13: Option<Address>,
    field14: Option<Address>,
    field15: MonoStreamHeader,
    field16: MonoStreamHeader,
    field17: MonoStreamHeader,
    field18: MonoStreamHeader,
    field19: MonoStreamHeader,
}

/// The fields 20 to 29 of a structure, as they come out of memory.
struct ImagePart2 {
    field20: MonoStreamHeader,
    field21: Option<Address>,
    field22: u64,
    field23: Option<Address>,
    field24: [MonoTableInfo; 56],
    field25: Option<Address>,
    field26: i32,
    field27: Option<Address>,
    field28: u32,
    field29: Option<Address>,
}

/// The fields 30 to 39 of a structure, as they come out of memory.
struct ImagePart3 {
    field30: Option<Address>,
    field31: u32,
    field32: Option<Address>,
    field33: [u8; 16],
    field34: Option<Address>,
    field35: Option<Address>,
    field36: MonoInternalHashTable<Eager<Ptr<Class>>>,
    field37: Option<Address>,
    field38: Option<Address>,
    field39: Option<Address>,
}

/// The fields 40 to 49 of a structure, as they come out of memory.
struct ImagePart4 {
    field40: Option<Address>,
    field41: Option<Address>,
    field42: Eager<Ptr<GHashTable<String, Eager<Ptr<GHashTable<String, u64>>>>>>,
    field43: Option<Address>,
    field44: Option<Address>,
    field45: Option<Address>,
    field46: [u8; 64],
    field47: Option<Address>,
    field48: Option<Address>,
    field49: Option<Address>,
}

/// The fields 50 to 59 of a structure, as they come out of memory.
struct ImagePart5 {
    field50: Option<Address>,
    field51: Option<Address>,
    field52: Option<Address>,
    field53: Option<Address>,
    field54: Option<Address>,
    field55: Option<Address>,
    field56: Option<Address>,
    field57: Option<Address>,
    field58: Option<Address>,
    field59: Option<Address>,
}

/// The fields 60 to 69 of a structure, as they come out of memory.
struct ImagePart6 {
    field60: Option<Address>,
    field61: Option<Address>,
    field62: Option<Address>,
    field63: Option<Address>,
    field64: Option<Address>,
    field65: Option<Address>,
    field66: [Option<Address>; 21],
    field67: Option<Address>,
    field68: Option<Address>,
    field69: Option<Address>,
}

/// The fields 70 to 79 of a structure, as they come out of memory.
struct ImagePart7 {
    field70: Option<Address>,
    field71: Option<Address>,
    field72: Option<Address>,
    field73: Option<Address>,
    field74: Option<Address>,
    field75: Option<Address>,
    field76: Option<Address>,
    field77: Option<Address>,
    field78: bool,
    field79: Option<Address>,
}

/// The fields 80 to 80 of a structure, as they come out of memory.
struct ImagePart8 {
    field80: [u8; 64],
}

impl Image {
    /// What the reading of field `index` did to arrive at that field of `part`.
    #[verifier::opaque]
    spec fn part0_read(address: Address, part: ImagePart0, index: int, events: Seq<ReadEvent>) -> bool {
        if index == 0 {
            field_step::<i32>(
                address,
                Self::end_before(address, 0),
                field_context_text("Image"@, "ref_count"@),
                events,
                Ok(part.field0),
            )
        } else if index == 1 {
            field_step::<Option<Address>>(
                address,
                Self::end_before(address, 1),
                field_context_text("Image"@, "raw_data_handle"@),
                events,
                Ok(part.field1),
            )
        } else if index == 2 {
            field_step::<Option<Address>>(
                address,
                Self::end_before(address, 2),
                field_context_text("Image"@, "raw_data"@),
                events,
                Ok(part.field2),
            )
        } else if index == 3 {
            field_step::<u32>(
                address,
                Self::end_before(address, 3),
                field_context_text("Image"@, "raw_data_len"@),
                events,
                Ok(part.field3),
            )
        } else if index == 4 {
            field_step::<[u8; 2]>(
                address,
                Self::end_before(address, 4),
                field_context_text("Image"@, "bitfields"@),
                events,
                Ok(part.field4),
            )
        } else if index == 5 {
            field_step::<String>(
                address,
                Self::end_before(address, 5),
                field_context_text("Image"@, "name"@),
                events,
                Ok(part.field5),
            )
        } else if index == 6 {
            field_step::<Option<String>>(
                address,
                Self::end_before(address, 6),
                field_context_text("Image"@, "assembly_name"@),
                events,
                Ok(part.field6),
            )
        } else if index == 7 {
            field_step::<Option<String>>(
                address,
                Self::end_before(address, 7),
                field_context_text("Image"@, "module_name"@),
                events,
                Ok(part.field7),
            )
        } else if index == 8 {
            field_step::<Option<String>>(
                address,
                Self::end_before(address, 8),
                field_context_text("Image"@, "version"@),
                events,
                Ok(part.field8),
            )
        } else {
            field_step::<i16>(
                address,
                Self::end_before(address, 9),
                field_context_text("Image"@, "md_version_major"@),
                events,
                Ok(part.field9),
            )
        }
    }

    /// Reads the fields 0 to 9, in declaration order, from where
    /// `cursor` stands.
    fn read_part0<M: MemoryReader>(reader: &mut M, cursor: &mut FieldCursor, Ghost(address): Ghost<Address>) -> (r: Result<
        (ImagePart0, Ghost<Seq<Seq<ReadEvent>>>),
        Error,
    >)
        requires
            old(cursor).origin() == address,
            old(cursor).end() == Self::end_before(address, 0),
        ensures
            old(reader).history().is_prefix_of(final(reader).history()),
            final(cursor).origin() == address,
            match r {
                Ok((part, histories)) => {
                    &&& final(cursor).end() == Self::end_before(address, 10)
                    &&& histories@.len() == 11
                    &&& histories@[0] == old(reader).history()
                    &&& histories@[10] == final(reader).history()
                    &&& forall|i: int|
                        0 <= i < 10 ==> (#[trigger] histories@[i]).is_prefix_of(histories@[i + 1])
                            && Self::part0_read(
                            address,
                            part,
                            0 + i,
                            events_since(histories@[i], histories@[i + 1]),
                        )
                },
                Err(error) => Self::fails_at_field(
                    address,
                    events_since(old(reader).history(), final(reader).history()),
                    error,
                ),
            },
    {
        let ghost h0 = reader.history();
        let ghost g0 = h0;
        proof {
            Self::lemma_fields();
            lemma_no_events(h0);
            assert(Self::end_before(address, 0) == address@);
        }
        let field0 = match cursor.field::<i32, M>(reader, "Image", "ref_count") {
            Ok(value) => value,
            Err(error) => {
                proof {
                    lemma_events_chain(h0, g0, reader.history());
                    let cut = events_since(h0, g0).len() as int;
                    assert(Self::field_fails(address, 0, events_since(h0, reader.history()).skip(cut), error)) by {
                        reveal(Image::field_fails);
                    }
                    assert(Self::fails_at_field(address, events_since(h0, reader.history()), error));
                }
                return Err(error);
            },
        };
        let ghost g1 = reader.history();
        proof {
            lemma_prefix_trans(h0, g0, g1);
            assert(cursor.end() == Self::end_before(address, 1));
        }
        let field1 = match cursor.field::<Option<Address>, M>(reader, "Image", "raw_data_handle") {
            Ok(value) => value,
            Err(error) => {
                proof {
                    lemma_events_chain(h0, g1, reader.history());
                    let cut = events_since(h0, g1).len() as int;
                    assert(Self::field_fails(address, 1, events_since(h0, reader.history()).skip(cut), error)) by {
                        reveal(Image::field_fails);
                    }
                    assert(Self::fails_at_field(address, events_since(h0, reader.history()), error));
                }
                return Err(error);
            },
        };
        let ghost g2 = reader.history();
        proof {
            lemma_prefix_trans(h0, g1, g2);
            assert(cursor.end() == Self::end_before(address, 2));
        }
        let field2 = match cursor.field::<Option<Address>, M>(reader, "Image", "raw_data") {
            Ok(value) => value,
            Err(error) => {
                proof {
                    lemma_events_chain(h0, g2, reader.history());
                    let cut = events_since(h0, g2).len() as int;
                    assert(Self::field_fails(address, 2, events_since(h0, reader.history()).skip(cut), error)) by {
                        reveal(Image::field_fails);
                    }
                    assert(Self::fails_at_field(address, events_since(h0, reader.history()), error));
                }
                return Err(error);
            },
        };
        let ghost g3 = reader.history();
        proof {
            lemma_prefix_trans(h0, g2, g3);
            assert(cursor.end() == Self::end_before(address, 3));
        }
        let field3 = match cursor.field::<u32, M>(reader, "Image", "raw_data_len") {
            Ok(value) => value,
            Err(error) => {
                proof {
                    lemma_events_chain(h0, g3, reader.history());
                    let cut = events_since(h0, g3).len() as int;
                    assert(Self::field_fails(address, 3, events_since(h0, reader.history()).skip(cut), error)) by {
                        reveal(Image::field_fails);
                    }
                    assert(Self::fails_at_field(address, events_since(h0, reader.history()), error));
                }
                return Err(error);
            },
        };
        let ghost g4 = reader.history();
        proof {
            lemma_prefix_trans(h0, g3, g4);
            assert(cursor.end() == Self::end_before(address, 4));
        }
        let field4 = match cursor.field::<[u8; 2], M>(reader, "Image", "bitfields") {
            Ok(value) => value,
            Err(error) => {
                proof {
                    lemma_events_chain(h0, g4, reader.history());
                    let cut = events_since(h0, g4).len() as int;
                    assert(Self::field_fails(address, 4, events_since(h0, reader.history()).skip(cut), error)) by {
                        reveal(Image::field_fails);
                    }
                    assert(Self::fails_at_field(address, events_since(h0, reader.history()), error));
                }
                return Err(error);
            },
        };
        let ghost g5 = reader.history();
        proof {
            lemma_prefix_trans(h0, g4, g5);
            assert(cursor.end() == Self::end_before(address, 5));
        }
        let field5 = match cursor.field::<String, M>(reader, "Image", "name") {
            Ok(value) => value,
            Err(error) => {
                proof {
                    lemma_events_chain(h0, g5, reader.history());
                    let cut = events_since(h0, g5).len() as int;
                    assert(Self::field_fails(address, 5, events_since(h0, reader.history()).skip(cut), error)) by {
                        reveal(Image::field_fails);
                    }
                    assert(Self::fails_at_field(address, events_since(h0, reader.history()), error));
                }
                return Err(error);
            },
        };
        let ghost g6 = reader.history();
        proof {
            lemma_prefix_trans(h0, g5, g6);
            assert(cursor.end() == Self::end_before(address, 6));
        }
        let field6 = match cursor.field::<Option<String>, M>(reader, "Image", "assembly_name") {
            Ok(value) => value,
            Err(error) => {
                proof {
                    lemma_events_chain(h0, g6, reader.history());
                    let cut = events_since(h0, g6).len() as int;
                    assert(Self::field_fails(address, 6, events_since(h0, reader.history()).skip(cut), error)) by {
                        reveal(Image::field_fails);
                    }
                    assert(Self::fails_at_field(address, events_since(h0, reader.history()), error));
                }
                return Err(error);
            },
        };
        let ghost g7 = reader.history();
        proof {
            lemma_prefix_trans(h0, g6, g7);
            assert(cursor.end() == Self::end_before(address, 7));
        }
        let field7 = match cursor.field::<Option<String>, M>(reader, "Image", "module_name") {
            Ok(value) => value,
            Err(error) => {
                proof {
                    lemma_events_chain(h0, g7, reader.history());
                    let cut = events_since(h0, g7).len() as int;
                    assert(Self::field_fails(address, 7, events_since(h0, reader.history()).skip(cut), error)) by {
                        reveal(Image::field_fails);
                    }
                    assert(Self::fails_at_field(address, events_since(h0, reader.history()), error));
                }
                return Err(error);
            },
        };
        let ghost g8 = reader.history();
        proof {
            lemma_prefix_trans(h0, g7, g8);
            assert(cursor.end() == Self::end_before(address, 8));
        }
        let field8 = match cursor.field::<Option<String>, M>(reader, "Image", "version") {
            Ok(value) => value,
            Err(error) => {
                proof {
                    lemma_events_chain(h0, g8, reader.history());
                    let cut = events_since(h0, g8).len() as int;
                    assert(Self::field_fails(address, 8, events_since(h0, reader.history()).skip(cut), error)) by {
                        reveal(Image::field_fails);
                    }
                    assert(Self::fails_at_field(address, events_since(h0, reader.history()), error));
                }
                return Err(error);
            },
        };
        let ghost g9 = reader.history();
        proof {
            lemma_prefix_trans(h0, g8, g9);
            assert(cursor.end() == Self::end_before(address, 9));
        }
        let field9 = match cursor.field::<i16, M>(reader, "Image", "md_version_major") {
            Ok(value) => value,
            Err(error) => {
                proof {
                    lemma_events_chain(h0, g9, reader.history());
                    let cut = events_since(h0, g9).len() as int;
                    assert(Self::field_fails(address, 9, events_since(h0, reader.history()).skip(cut), error)) by {
                        reveal(Image::field_fails);
                    }
                    assert(Self::fails_at_field(address, events_since(h0, reader.history()), error));
                }
                return Err(error);
            },
        };
        let ghost g10 = reader.history();
        proof {
            lemma_prefix_trans(h0, g9, g10);
            assert(cursor.end() == Self::end_before(address, 10));
        }
        let part = ImagePart0 { field0, field1, field2, field3, field4, field5, field6, field7, field8, field9 };
        let ghost histories = Seq::new(11, |i: int|
            if i == 0 {
                g0
            } else if i == 1 {
                g1
            } else if i == 2 {
                g2
            } else if i == 3 {
                g3
            } else if i == 4 {
                g4
            } else if i == 5 {
                g5
            } else if i == 6 {
                g6
            } else if i == 7 {
                g7
            } else if i == 8 {
                g8
            } else if i == 9 {
                g9
            } else {
                g10
            });
        proof {
            assert forall|i: int| 0 <= i < 10 implies (#[trigger] histories[i]).is_prefix_of(histories[i + 1])
                && Self::part0_read(address, part, 0 + i, events_since(histories[i], histories[i + 1])) by {
                if i == 0 {
                    assert(Self::part0_read(address, part, 0, events_since(g0, g1))) by {
                        reveal(Image::part0_read);
                    }
                } else if i == 1 {
                    assert(Self::part0_read(address, part, 1, events_since(g1, g2))) by {
                        reveal(Image::part0_read);
                    }
                } else if i == 2 {
                    assert(Self::part0_read(address, part, 2, events_since(g2, g3))) by {
                        reveal(Image::part0_read);
                    }
                } else if i == 3 {
                    assert(Self::part0_read(address, part, 3, events_since(g3, g4))) by {
                        reveal(Image::part0_read);
                    }
                } else if i == 4 {
                    assert(Self::part0_read(address, part, 4, events_since(g4, g5))) by {
                        reveal(Image::part0_read);
                    }
                } else if i == 5 {
                    assert(Self::part0_read(address, part, 5, events_since(g5, g6))) by {
                        reveal(Image::part0_read);
                    }
                } else if i == 6 {
                    assert(Self::part0_read(address, part, 6, events_since(g6, g7))) by {
                        reveal(Image::part0_read);
                    }
                } else if i == 7 {
                    assert(Self::part0_read(address, part, 7, events_since(g7, g8))) by {
                        reveal(Image::part0_read);
                    }
                } else if i == 8 {
                    assert(Self::part0_read(address, part, 8, events_since(g8, g9))) by {
                        reveal(Image::part0_read);
                    }
                } else if i == 9 {
                    assert(Self::part0_read(address, part, 9, events_since(g9, g10))) by {
                        reveal(Image::part0_read);
                    }
                }
            }
        }
        Ok((part, Ghost(histories)))
    }

    /// What the reading of field `index` did to arrive at that field of `part`.
    #[verifier::opaque]
    spec fn part1_read(address: Address, part: ImagePart1, index: int, events: Seq<ReadEvent>) -> bool {
        if index == 10 {
            field_step::<i16>(
                address,
                Self::end_before(address, 10),
                field_context_text("Image"@, "md_version_minor"@),
                events,
                Ok(part.field10),
            )
        } else if index == 11 {
            field_step::<Option<String>>(
                address,
                Self::end_before(address, 11),
                field_context_text("Image"@, "guid"@),
                events,
                Ok(part.field11),
            )
        } else if index == 12 {
            field_step::<Option<Address>>(
                address,
                Self::end_before(address, 12),
                field_context_text("Image"@, "image_info"@),
                events,
                Ok(part.field12),
            )
        } else if index == 13 {
            field_step::<Option<Address>>(
                address,
                Self::end_before(address, 13),
                field_context_text("Image"@, "mempool"@),
                events,
                Ok(part.field13),
            )
        } else if index == 14 {
            field_step::<Option<Address>>(
                address,
                Self::end_before(address, 14),
                field_context_text("Image"@, "raw_metadata"@),
                events,
                Ok(part.field14),
            )
        } else if index == 15 {
            field_step::<MonoStreamHeader>(
                address,
                Self::end_before(address, 15),
                field_context_text("Image"@, "heap_strings"@),
                events,
                Ok(part.field15),
            )
        } else if index == 16 {
            field_step::<MonoStreamHeader>(
                address,
                Self::end_before(address, 16),
                field_context_text("Image"@, "heap_us"@),
                events,
                Ok(part.field16),
            )
        } else if index == 17 {
            field_step::<MonoStreamHeader>(
                address,
                Self::end_before(address, 17),
                field_context_text("Image"@, "heap_blob"@),
                events,
                Ok(part.field17),
            )
        } else if index == 18 {
            field_step::<MonoStreamHeader>(
                address,
                Self::end_before(address, 18),
                field_context_text("Image"@, "heap_guid"@),
                events,
                Ok(part.field18),
            )
        } else {
            field_step::<MonoStreamHeader>(
                address,
                Self::end_before(address, 19),
                field_context_text("Image"@, "heap_tables"@),
                events,
                Ok(part.field19),
            )
        }
    }

    /// Reads the fields 10 to 19, in declaration order, from where
    /// `cursor` stands.
    fn read_part1<M: MemoryReader>(reader: &mut M, cursor: &mut FieldCursor, Ghost(address): Ghost<Address>) -> (r: Result<
        (ImagePart1, Ghost<Seq<Seq<ReadEvent>>>),
        Error,
    >)
        requires
            old(cursor).origin() == address,
            old(cursor).end() == Self::end_before(address, 10),
        ensures
            old(reader).history().is_prefix_of(final(reader).history()),
            final(cursor).origin() == address,
            match r {
                Ok((part, histories)) => {
                    &&& final(cursor).end() == Self::end_before(address, 20)
                    &&& histories@.len() == 11
                    &&& histories@[0] == old(reader).history()
                    &&& histories@[10] == final(reader).history()
                    &&& forall|i: int|
                        0 <= i < 10 ==> (#[trigger] histories@[i]).is_prefix_of(histories@[i + 1])
                            && Self::part1_read(
                            address,
                            part,
                            10 + i,
                            events_since(histories@[i], histories@[i + 1]),
                        )
                },
                Err(error) => Self::fails_at_field(
                    address,
                    events_since(old(reader).history(), final(reader).history()),
                    error,
                ),
            },
    {
        let ghost h0 = reader.history();
        let ghost g10 = h0;
        proof {
            Self::lemma_fields();
            lemma_no_events(h0);
            assert(Self::end_before(address, 0) == address@);
        }
        let field10 = match cursor.field::<i16, M>(reader, "Image", "md_version_minor") {
            Ok(value) => value,
            Err(error) => {
                proof {
                    lemma_events_chain(h0, g10, reader.history());
                    let cut = events_since(h0, g10).len() as int;
                    assert(Self::field_fails(address, 10, events_since(h0, reader.history()).skip(cut), error)) by {
                        reveal(Image::field_fails);
                    }
                    assert(Self::fails_at_field(address, events_since(h0, reader.history()), error));
                }
                return Err(error);
            },
        };
        let ghost g11 = reader.history();
        proof {
            lemma_prefix_trans(h0, g10, g11);
            assert(cursor.end() == Self::end_before(address, 11));
        }
        let field11 = match cursor.field::<Option<String>, M>(reader, "Image", "guid") {
            Ok(value) => value,
            Err(error) => {
                proof {
                    lemma_events_chain(h0, g11, reader.history());
                    let cut = events_since(h0, g11).len() as int;
                    assert(Self::field_fails(address, 11, events_since(h0, reader.history()).skip(cut), error)) by {
                        reveal(Image::field_fails);
                    }
                    assert(Self::fails_at_field(address, events_since(h0, reader.history()), error));
                }
                return Err(error);
            },
        };
        let ghost g12 = reader.history();
        proof {
            lemma_prefix_trans(h0, g11, g12);
            assert(cursor.end() == Self::end_before(address, 12));
        }
        let field12 = match cursor.field::<Option<Address>, M>(reader, "Image", "image_info") {
            Ok(value) => value,
            Err(error) => {
                proof {
                    lemma_events_chain(h0, g12, reader.history());
                    let cut = events_since(h0, g12).len() as int;
                    assert(Self::field_fails(address, 12, events_since(h0, reader.history()).skip(cut), error)) by {
                        reveal(Image::field_fails);
                    }
                    assert(Self::fails_at_field(address, events_since(h0, reader.history()), error));
                }
                return Err(error);
            },
        };
        let ghost g13 = reader.history();
        proof {
            lemma_prefix_trans(h0, g12, g13);
            assert(cursor.end() == Self::end_before(address, 13));
        }
        let field13 = match cursor.field::<Option<Address>, M>(reader, "Image", "mempool") {
            Ok(value) => value,
            Err(error) => {
                proof {
                    lemma_events_chain(h0, g13, reader.history());
                    let cut = events_since(h0, g13).len() as int;
                    assert(Self::field_fails(address, 13, events_since(h0, reader.history()).skip(cut), error)) by {
                        reveal(Image::field_fails);
                    }
                    assert(Self::fails_at_field(address, events_since(h0, reader.history()), error));
                }
                return Err(error);
            },
        };
        let ghost g14 = reader.history();
        proof {
            lemma_prefix_trans(h0, g13, g14);
            assert(cursor.end() == Self::end_before(address, 14));
        }
        let field14 = match cursor.field::<Option<Address>, M>(reader, "Image", "raw_metadata") {
            Ok(value) => value,
            Err(error) => {
                proof {
                    lemma_events_chain(h0, g14, reader.history());
                    let cut = events_since(h0, g14).len() as int;
                    assert(Self::field_fails(address, 14, events_since(h0, reader.history()).skip(cut), error)) by {
                        reveal(Image::field_fails);
                    }
                    assert(Self::fails_at_field(address, events_since(h0, reader.history()), error));
                }
                return Err(error);
            },
        };
        let ghost g15 = reader.history();
        proof {
            lemma_prefix_trans(h0, g14, g15);
            assert(cursor.end() == Self::end_before(address, 15));
        }
        let field15 = match cursor.field::<MonoStreamHeader, M>(reader, "Image", "heap_strings") {
            Ok(value) => value,
            Err(error) => {
                proof {
                    lemma_events_chain(h0, g15, reader.history());
                    let cut = events_since(h0, g15).len() as int;
                    assert(Self::field_fails(address, 15, events_since(h0, reader.history()).skip(cut), error)) by {
                        reveal(Image::field_fails);
                    }
                    assert(Self::fails_at_field(address, events_since(h0, reader.history()), error));
                }
                return Err(error);
            },
        };
        let ghost g16 = reader.history();
        proof {
            lemma_prefix_trans(h0, g15, g16);
            assert(cursor.end() == Self::end_before(address, 16));
        }
        let field16 = match cursor.field::<MonoStreamHeader, M>(reader, "Image", "heap_us") {
            Ok(value) => value,
            Err(error) => {
                proof {
                    lemma_events_chain(h0, g16, reader.history());
                    let cut = events_since(h0, g16).len() as int;
                    assert(Self::field_fails(address, 16, events_since(h0, reader.history()).skip(cut), error)) by {
                        reveal(Image::field_fails);
                    }
                    assert(Self::fails_at_field(address, events_since(h0, reader.history()), error));
                }
                return Err(error);
            },
        };
        let ghost g17 = reader.history();
        proof {
            lemma_prefix_trans(h0, g16, g17);
            assert(cursor.end() == Self::end_before(address, 17));
        }
        let field17 = match cursor.field::<MonoStreamHeader, M>(reader, "Image", "heap_blob") {
            Ok(value) => value,
            Err(error) => {
                proof {
                    lemma_events_chain(h0, g17, reader.history());
                    let cut = events_since(h0, g17).len() as int;
                    assert(Self::field_fails(address, 17, events_since(h0, reader.history()).skip(cut), error)) by {
                        reveal(Image::field_fails);
                    }
                    assert(Self::fails_at_field(address, events_since(h0, reader.history()), error));
                }
                return Err(error);
            },
        };
        let ghost g18 = reader.history();
        proof {
            lemma_prefix_trans(h0, g17, g18);
            assert(cursor.end() == Self::end_before(address, 18));
        }
        let field18 = match cursor.field::<MonoStreamHeader, M>(reader, "Image", "heap_guid") {
            Ok(value) => value,
            Err(error) => {
                proof {
                    lemma_events_chain(h0, g18, reader.history());
                    let cut = events_since(h0, g18).len() as int;
                    assert(Self::field_fails(address, 18, events_since(h0, reader.history()).skip(cut), error)) by {
                        reveal(Image::field_fails);
                    }
                    assert(Self::fails_at_field(address, events_since(h0, reader.history()), error));
                }
                return Err(error);
            },
        };
        let ghost g19 = reader.history();
        proof {
            lemma_prefix_trans(h0, g18, g19);
            assert(cursor.end() == Self::end_before(address, 19));
        }
        let field19 = match cursor.field::<MonoStreamHeader, M>(reader, "Image", "heap_tables") {
            Ok(value) => value,
            Err(error) => {
                proof {
                    lemma_events_chain(h0, g19, reader.history());
                    let cut = events_since(h0, g19).len() as int;
                    assert(Self::field_fails(address, 19, events_since(h0, reader.history()).skip(cut), error)) by {
                        reveal(Image::field_fails);
                    }
                    assert(Self::fails_at_field(address, events_since(h0, reader.history()), error));
                }
                return Err(error);
            },
        };
        let ghost g20 = reader.history();
        proof {
            lemma_prefix_trans(h0, g19, g20);
            assert(cursor.end() == Self::end_before(address, 20));
        }
        let part = ImagePart1 { field10, field11, field12, field13, field14, field15, field16, field17, field18, field19 };
        let ghost histories = Seq::new(11, |i: int|
            if i == 0 {
                g10
            } else if i == 1 {
                g11
            } else if i == 2 {
                g12
            } else if i == 3 {
                g13
            } else if i == 4 {
                g14
            } else if i == 5 {
                g15
            } else if i == 6 {
                g16
            } else if i == 7 {
                g17
            } else if i == 8 {
                g18
            } else if i == 9 {
                g19
            } else {
                g20
            });
        proof {
            assert forall|i: int| 0 <= i < 10 implies (#[trigger] histories[i]).is_prefix_of(histories[i + 1])
                && Self::part1_read(address, part, 10 + i, events_since(histories[i], histories[i + 1])) by {
                if i == 0 {
                    assert(Self::part1_read(address, part, 10, events_since(g10, g11))) by {
                        reveal(Image::part1_read);
                    }
                } else if i == 1 {
                    assert(Self::part1_read(address, part, 11, events_since(g11, g12))) by {
                        reveal(Image::part1_read);
                    }
                } else if i == 2 {
                    assert(Self::part1_read(address, part, 12, events_since(g12, g13))) by {
                        reveal(Image::part1_read);
                    }
                } else if i == 3 {
                    assert(Self::part1_read(address, part, 13, events_since(g13, g14))) by {
                        reveal(Image::part1_read);
                    }
                } else if i == 4 {
                    assert(Self::part1_read(address, part, 14, events_since(g14, g15))) by {
                        reveal(Image::part1_read);
                    }
                } else if i == 5 {
                    assert(Self::part1_read(address, part, 15, events_since(g15, g16))) by {
                        reveal(Image::part1_read);
                    }
                } else if i == 6 {
                    assert(Self::part1_read(address, part, 16, events_since(g16, g17))) by {
                        reveal(Image::part1_read);
                    }
                } else if i == 7 {
                    assert(Self::part1_read(address, part, 17, events_since(g17, g18))) by {
                        reveal(Image::part1_read);
                    }
                } else if i == 8 {
                    assert(Self::part1_read(address, part, 18, events_since(g18, g19))) by {
                        reveal(Image::part1_read);
                    }
                } else if i == 9 {
                    assert(Self::part1_read(address, part, 19, events_since(g19, g20))) by {
                        reveal(Image::part1_read);
                    }
                }
            }
        }
        Ok((part, Ghost(histories)))
    }

    /// What the reading of field `index` did to arrive at that field of `part`.
    #[verifier::opaque]
    spec fn part2_read(address: Address, part: ImagePart2, index: int, events: Seq<ReadEvent>) -> bool {
        if index == 20 {
            field_step::<MonoStreamHeader>(
                address,
                Self::end_before(address, 20),
                field_context_text("Image"@, "heap_pdb"@),
                events,
                Ok(part.field20),
            )
        } else if index == 21 {
            field_step::<Option<Address>>(
                address,
                Self::end_before(address, 21),
                field_context_text("Image"@, "tables_base"@),
                events,
                Ok(part.field21),
            )
        } else if index == 22 {
            field_step::<u64>(
                address,
                Self::end_before(address, 22),
                field_context_text("Image"@, "referenced_tables"@),
                events,
                Ok(part.field22),
            )
        } else if index == 23 {
            field_step::<Option<Address>>(
                address,
                Self::end_before(address, 23),
                field_context_text("Image"@, "referenced_table_rows"@),
                events,
                Ok(part.field23),
            )
        } else if index == 24 {
            field_step::<[MonoTableInfo; 56]>(
                address,
                Self::end_before(address, 24),
                field_context_text("Image"@, "tables"@),
                events,
                Ok(part.field24),
            )
        } else if index == 25 {
            field_step::<Option<Address>>(
                address,
                Self::end_before(address, 25),
                field_context_text("Image"@, "references"@),
                events,
                Ok(part.field25),
            )
        } else if index == 26 {
            field_step::<i32>(
                address,
                Self::end_before(address, 26),
                field_context_text("Image"@, "nreferences"@),
                events,
                Ok(part.field26),
            )
        } else if index == 27 {
            field_step::<Option<Address>>(
                address,
                Self::end_before(address, 27),
                field_context_text("Image"@, "modules"@),
                events,
                Ok(part.field27),
            )
        } else if index == 28 {
            field_step::<u32>(
                address,
                Self::end_before(address, 28),
                field_context_text("Image"@, "module_count"@),
                events,
                Ok(part.field28),
            )
        } else {
            field_step::<Option<Address>>(
                address,
                Self::end_before(address, 29),
                field_context_text("Image"@, "modules_loaded"@),
                events,
                Ok(part.field29),
            )
        }
    }

    /// Reads the fields 20 to 29, in declaration order, from where
    /// `cursor` stands.
    fn read_part2<M: MemoryReader>(reader: &mut M, cursor: &mut FieldCursor, Ghost(address): Ghost<Address>) -> (r: Result<
        (ImagePart2, Ghost<Seq<Seq<ReadEvent>>>),
        Error,
    >)
        requires
            old(cursor).origin() == address,
            old(cursor).end() == Self::end_before(address, 20),
        ensures
            old(reader).history().is_prefix_of(final(reader).history()),
            final(cursor).origin() == address,
            match r {
                Ok((part, histories)) => {
                    &&& final(cursor).end() == Self::end_before(address, 30)
                    &&& histories@.len() == 11
                    &&& histories@[0] == old(reader).history()
                    &&& histories@[10] == final(reader).history()
                    &&& forall|i: int|
                        0 <= i < 10 ==> (#[trigger] histories@[i]).is_prefix_of(histories@[i + 1])
                            && Self::part2_read(
                            address,
                            part,
                            20 + i,
                            events_since(histories@[i], histories@[i + 1]),
                        )
                },
                Err(error) => Self::fails_at_field(
                    address,
                    events_since(old(reader).history(), final(reader).history()),
                    error,
                ),
            },
    {
        let ghost h0 = reader.history();
        let ghost g20 = h0;
        proof {
            Self::lemma_fields();
            lemma_no_events(h0);
            assert(Self::end_before(address, 0) == address@);
        }
        let field20 = match cursor.field::<MonoStreamHeader, M>(reader, "Image", "heap_pdb") {
            Ok(value) => value,
            Err(error) => {
                proof {
                    lemma_events_chain(h0, g20, reader.history());
                    let cut = events_since(h0, g20).len() as int;
                    assert(Self::field_fails(address, 20, events_since(h0, reader.history()).skip(cut), error)) by {
                        reveal(Image::field_fails);
                    }
                    assert(Self::fails_at_field(address, events_since(h0, reader.history()), error));
                }
                return Err(error);
            },
        };
        let ghost g21 = reader.history();
        proof {
            lemma_prefix_trans(h0, g20, g21);
            assert(cursor.end() == Self::end_before(address, 21));
        }
        let field21 = match cursor.field::<Option<Address>, M>(reader, "Image", "tables_base") {
            Ok(value) => value,
            Err(error) => {
                proof {
                    lemma_events_chain(h0, g21, reader.history());
                    let cut = events_since(h0, g21).len() as int;
                    assert(Self::field_fails(address, 21, events_since(h0, reader.history()).skip(cut), error)) by {
                        reveal(Image::field_fails);
                    }
                    assert(Self::fails_at_field(address, events_since(h0, reader.history()), error));
                }
                return Err(error);
            },
        };
        let ghost g22 = reader.history();
        proof {
            lemma_prefix_trans(h0, g21, g22);
            assert(cursor.end() == Self::end_before(address, 22));
        }
        let field22 = match cursor.field::<u64, M>(reader, "Image", "referenced_tables") {
            Ok(value) => value,
            Err(error) => {
                proof {
                    lemma_events_chain(h0, g22, reader.history());
                    let cut = events_since(h0, g22).len() as int;
                    assert(Self::field_fails(address, 22, events_since(h0, reader.history()).skip(cut), error)) by {
                        reveal(Image::field_fails);
                    }
                    assert(Self::fails_at_field(address, events_since(h0, reader.history()), error));
                }
                return Err(error);
            },
        };
        let ghost g23 = reader.history();
        proof {
            lemma_prefix_trans(h0, g22, g23);
            assert(cursor.end() == Self::end_before(address, 23));
        }
        let field23 = match cursor.field::<Option<Address>, M>(reader, "Image", "referenced_table_rows") {
            Ok(value) => value,
            Err(error) => {
                proof {
                    lemma_events_chain(h0, g23, reader.history());
                    let cut = events_since(h0, g23).len() as int;
                    assert(Self::field_fails(address, 23, events_since(h0, reader.history()).skip(cut), error)) by {
                        reveal(Image::field_fails);
                    }
                    assert(Self::fails_at_field(address, events_since(h0, reader.history()), error));
                }
                return Err(error);
            },
        };
        let ghost g24 = reader.history();
        proof {
            lemma_prefix_trans(h0, g23, g24);
            assert(cursor.end() == Self::end_before(address, 24));
        }
        let field24 = match cursor.field::<[MonoTableInfo; 56], M>(reader, "Image", "tables") {
            Ok(value) => value,
            Err(error) => {
                proof {
                    lemma_events_chain(h0, g24, reader.history());
                    let cut = events_since(h0, g24).len() as int;
                    assert(Self::field_fails(address, 24, events_since(h0, reader.history()).skip(cut), error)) by {
                        reveal(Image::field_fails);
                    }
                    assert(Self::fails_at_field(address, events_since(h0, reader.history()), error));
                }
                return Err(error);
            },
        };
        let ghost g25 = reader.history();
        proof {
            lemma_prefix_trans(h0, g24, g25);
            assert(cursor.end() == Self::end_before(address, 25));
        }
        let field25 = match cursor.field::<Option<Address>, M>(reader, "Image", "references") {
            Ok(value) => value,
            Err(error) => {
                proof {
                    lemma_events_chain(h0, g25, reader.history());
                    let cut = events_since(h0, g25).len() as int;
                    assert(Self::field_fails(address, 25, events_since(h0, reader.history()).skip(cut), error)) by {
                        reveal(Image::field_fails);
                    }
                    assert(Self::fails_at_field(address, events_since(h0, reader.history()), error));
                }
                return Err(error);
            },
        };
        let ghost g26 = reader.history();
        proof {
            lemma_prefix_trans(h0, g25, g26);
            assert(cursor.end() == Self::end_before(address, 26));
        }
        let field26 = match cursor.field::<i32, M>(reader, "Image", "nreferences") {
            Ok(value) => value,
            Err(error) => {
                proof {
                    lemma_events_chain(h0, g26, reader.history());
                    let cut = events_since(h0, g26).len() as int;
                    assert(Self::field_fails(address, 26, events_since(h0, reader.history()).skip(cut), error)) by {
                        reveal(Image::field_fails);
                    }
                    assert(Self::fails_at_field(address, events_since(h0, reader.history()), error));
                }
                return Err(error);
            },
        };
        let ghost g27 = reader.history();
        proof {
            lemma_prefix_trans(h0, g26, g27);
            assert(cursor.end() == Self::end_before(address, 27));
        }
        let field27 = match cursor.field::<Option<Address>, M>(reader, "Image", "modules") {
            Ok(value) => value,
            Err(error) => {
                proof {
                    lemma_events_chain(h0, g27, reader.history());
                    let cut = events_since(h0, g27).len() as int;
                    assert(Self::field_fails(address, 27, events_since(h0, reader.history()).skip(cut), error)) by {
                        reveal(Image::field_fails);
                    }
                    assert(Self::fails_at_field(address, events_since(h0, reader.history()), error));
                }
                return Err(error);
            },
        };
        let ghost g28 = reader.history();
        proof {
            lemma_prefix_trans(h0, g27, g28);
            assert(cursor.end() == Self::end_before(address, 28));
        }
        let field28 = match cursor.field::<u32, M>(reader, "Image", "module_count") {
            Ok(value) => value,
            Err(error) => {
                proof {
                    lemma_events_chain(h0, g28, reader.history());
                    let cut = events_since(h0, g28).len() as int;
                    assert(Self::field_fails(address, 28, events_since(h0, reader.history()).skip(cut), error)) by {
                        reveal(Image::field_fails);
                    }
                    assert(Self::fails_at_field(address, events_since(h0, reader.history()), error));
                }
                return Err(error);
            },
        };
        let ghost g29 = reader.history();
        proof {
            lemma_prefix_trans(h0, g28, g29);
            assert(cursor.end() == Self::end_before(address, 29));
        }
        let field29 = match cursor.field::<Option<Address>, M>(reader, "Image", "modules_loaded") {
            Ok(value) => value,
            Err(error) => {
                proof {
                    lemma_events_chain(h0, g29, reader.history());
                    let cut = events_since(h0, g29).len() as int;
                    assert(Self::field_fails(address, 29, events_since(h0, reader.history()).skip(cut), error)) by {
                        reveal(Image::field_fails);
                    }
                    assert(Self::fails_at_field(address, events_since(h0, reader.history()), error));
                }
                return Err(error);
            },
        };
        let ghost g30 = reader.history();
        proof {
            lemma_prefix_trans(h0, g29, g30);
            assert(cursor.end() == Self::end_before(address, 30));
        }
        let part = ImagePart2 { field20, field21, field22, field23, field24, field25, field26, field27, field28, field29 };
        let ghost histories = Seq::new(11, |i: int|
            if i == 0 {
                g20
            } else if i == 1 {
                g21
            } else if i == 2 {
                g22
            } else if i == 3 {
                g23
            } else if i == 4 {
                g24
            } else if i == 5 {
                g25
            } else if i == 6 {
                g26
            } else if i == 7 {
                g27
            } else if i == 8 {
                g28
            } else if i == 9 {
                g29
            } else {
                g30
            });
        proof {
            assert forall|i: int| 0 <= i < 10 implies (#[trigger] histories[i]).is_prefix_of(histories[i + 1])
                && Self::part2_read(address, part, 20 + i, events_since(histories[i], histories[i + 1])) by {
                if i == 0 {
                    assert(Self::part2_read(address, part, 20, events_since(g20, g21))) by {
                        reveal(Image::part2_read);
                    }
                } else if i == 1 {
                    assert(Self::part2_read(address, part, 21, events_since(g21, g22))) by {
                        reveal(Image::part2_read);
                    }
                } else if i == 2 {
                    assert(Self::part2_read(address, part, 22, events_since(g22, g23))) by {
                        reveal(Image::part2_read);
                    }
                } else if i == 3 {
                    assert(Self::part2_read(address, part, 23, events_since(g23, g24))) by {
                        reveal(Image::part2_read);
                    }
                } else if i == 4 {
                    assert(Self::part2_read(address, part, 24, events_since(g24, g25))) by {
                        reveal(Image::part2_read);
                    }
                } else if i == 5 {
                    assert(Self::part2_read(address, part, 25, events_since(g25, g26))) by {
                        reveal(Image::part2_read);
                    }
                } else if i == 6 {
                    assert(Self::part2_read(address, part, 26, events_since(g26, g27))) by {
                        reveal(Image::part2_read);
                    }
                } else if i == 7 {
                    assert(Self::part2_read(address, part, 27, events_since(g27, g28))) by {
                        reveal(Image::part2_read);
                    }
                } else if i == 8 {
                    assert(Self::part2_read(address, part, 28, events_since(g28, g29))) by {
                        reveal(Image::part2_read);
                    }
                } else if i == 9 {
                    assert(Self::part2_read(address, part, 29, events_since(g29, g30))) by {
                        reveal(Image::part2_read);
                    }
                }
            }
        }
        Ok((part, Ghost(histories)))
    }

    /// What the reading of field `index` did to arrive at that field of `part`.
    #[verifier::opaque]
    spec fn part3_read(address: Address, part: ImagePart3, index: int, events: Seq<ReadEvent>) -> bool {
        if index == 30 {
            field_step::<Option<Address>>(
                address,
                Self::end_before(address, 30),
                field_context_text("Image"@, "files"@),
                events,
                Ok(part.field30),
            )
        } else if index == 31 {
            field_step::<u32>(
                address,
                Self::end_before(address, 31),
                field_context_text("Image"@, "file_count"@),
                events,
                Ok(part.field31),
            )
        } else if index == 32 {
            field_step::<Option<Address>>(
                address,
                Self::end_before(address, 32),
                field_context_text("Image"@, "aot_module"@),
                events,
                Ok(part.field32),
            )
        } else if index == 33 {
            field_step::<[u8; 16]>(
                address,
                Self::end_before(address, 33),
                field_context_text("Image"@, "aotid"@),
                events,
                Ok(part.field33),
            )
        } else if index == 34 {
            field_step::<Option<Address>>(
                address,
                Self::end_before(address, 34),
                field_context_text("Image"@, "assembly"@),
                events,
                Ok(part.field34),
            )
        } else if index == 35 {
            field_step::<Option<Address>>(
                address,
                Self::end_before(address, 35),
                field_context_text("Image"@, "method_cache"@),
                events,
                Ok(part.field35),
            )
        } else if index == 36 {
            field_step::<MonoInternalHashTable<Eager<Ptr<Class>>>>(
                address,
                Self::end_before(address, 36),
                field_context_text("Image"@, "class_cache"@),
                events,
                Ok(part.field36),
            )
        } else if index == 37 {
            field_step::<Option<Address>>(
                address,
                Self::end_before(address, 37),
                field_context_text("Image"@, "methodref_cache"@),
                events,
                Ok(part.field37),
            )
        } else if index == 38 {
            field_step::<Option<Address>>(
                address,
                Self::end_before(address, 38),
                field_context_text("Image"@, "field_cache"@),
                events,
                Ok(part.field38),
            )
        } else {
            field_step::<Option<Address>>(
                address,
                Self::end_before(address, 39),
                field_context_text("Image"@, "typespec_cache"@),
                events,
                Ok(part.field39),
            )
        }
    }

    /// Reads the fields 30 to 39, in declaration order, from where
    /// `cursor` stands.
    fn read_part3<M: MemoryReader>(reader: &mut M, cursor: &mut FieldCursor, Ghost(address): Ghost<Address>) -> (r: Result<
        (ImagePart3, Ghost<Seq<Seq<ReadEvent>>>),
        Error,
    >)
        requires
            old(cursor).origin() == address,
            old(cursor).end() == Self::end_before(address, 30),
        ensures
            old(reader).history().is_prefix_of(final(reader).history()),
            final(cursor).origin() == address,
            match r {
                Ok((part, histories)) => {
                    &&& final(cursor).end() == Self::end_before(address, 40)
                    &&& histories@.len() == 11
                    &&& histories@[0] == old(reader).history()
                    &&& histories@[10] == final(reader).history()
                    &&& forall|i: int|
                        0 <= i < 10 ==> (#[trigger] histories@[i]).is_prefix_of(histories@[i + 1])
                            && Self::part3_read(
                            address,
                            part,
                            30 + i,
                            events_since(histories@[i], histories@[i + 1]),
                        )
                },
                Err(error) => Self::fails_at_field(
                    address,
                    events_since(old(reader).history(), final(reader).history()),
                    error,
                ),
            },
    {
        let ghost h0 = reader.history();
        let ghost g30 = h0;
        proof {
            Self::lemma_fields();
            lemma_no_events(h0);
            assert(Self::end_before(address, 0) == address@);
        }
        let field30 = match cursor.field::<Option<Address>, M>(reader, "Image", "files") {
            Ok(value) => value,
            Err(error) => {
                proof {
                    lemma_events_chain(h0, g30, reader.history());
                    let cut = events_since(h0, g30).len() as int;
                    assert(Self::field_fails(address, 30, events_since(h0, reader.history()).skip(cut), error)) by {
                        reveal(Image::field_fails);
                    }
                    assert(Self::fails_at_field(address, events_since(h0, reader.history()), error));
                }
                return Err(error);
            },
        };
        let ghost g31 = reader.history();
        proof {
            lemma_prefix_trans(h0, g30, g31);
            assert(cursor.end() == Self::end_before(address, 31));
        }
        let field31 = match cursor.field::<u32, M>(reader, "Image", "file_count") {
            Ok(value) => value,
            Err(error) => {
                proof {
                    lemma_events_chain(h0, g31, reader.history());
                    let cut = events_since(h0, g31).len() as int;
                    assert(Self::field_fails(address, 31, events_since(h0, reader.history()).skip(cut), error)) by {
                        reveal(Image::field_fails);
                    }
                    assert(Self::fails_at_field(address, events_since(h0, reader.history()), error));
                }
                return Err(error);
            },
        };
        let ghost g32 = reader.history();
        proof {
            lemma_prefix_trans(h0, g31, g32);
            assert(cursor.end() == Self::end_before(address, 32));
        }
        let field32 = match cursor.field::<Option<Address>, M>(reader, "Image", "aot_module") {
            Ok(value) => value,
            Err(error) => {
                proof {
                    lemma_events_chain(h0, g32, reader.history());
                    let cut = events_since(h0, g32).len() as int;
                    assert(Self::field_fails(address, 32, events_since(h0, reader.history()).skip(cut), error)) by {
                        reveal(Image::field_fails);
                    }
                    assert(Self::fails_at_field(address, events_since(h0, reader.history()), error));
                }
                return Err(error);
            },
        };
        let ghost g33 = reader.history();
        proof {
            lemma_prefix_trans(h0, g32, g33);
            assert(cursor.end() == Self::end_before(address, 33));
        }
        let field33 = match cursor.field::<[u8; 16], M>(reader, "Image", "aotid") {
            Ok(value) => value,
            Err(error) => {
                proof {
                    lemma_events_chain(h0, g33, reader.history());
                    let cut = events_since(h0, g33).len() as int;
                    assert(Self::field_fails(address, 33, events_since(h0, reader.history()).skip(cut), error)) by {
                        reveal(Image::field_fails);
                    }
                    assert(Self::fails_at_field(address, events_since(h0, reader.history()), error));
                }
                return Err(error);
            },
        };
        let ghost g34 = reader.history();
        proof {
            lemma_prefix_trans(h0, g33, g34);
            assert(cursor.end() == Self::end_before(address, 34));
        }
        let field34 = match cursor.field::<Option<Address>, M>(reader, "Image", "assembly") {
            Ok(value) => value,
            Err(error) => {
                proof {
                    lemma_events_chain(h0, g34, reader.history());
                    let cut = events_since(h0, g34).len() as int;
                    assert(Self::field_fails(address, 34, events_since(h0, reader.history()).skip(cut), error)) by {
                        reveal(Image::field_fails);
                    }
                    assert(Self::fails_at_field(address, events_since(h0, reader.history()), error));
                }
                return Err(error);
            },
        };
        let ghost g35 = reader.history();
        proof {
            lemma_prefix_trans(h0, g34, g35);
            assert(cursor.end() == Self::end_before(address, 35));
        }
        let field35 = match cursor.field::<Option<Address>, M>(reader, "Image", "method_cache") {
            Ok(value) => value,
            Err(error) => {
                proof {
                    lemma_events_chain(h0, g35, reader.history());
                    let cut = events_since(h0, g35).len() as int;
                    assert(Self::field_fails(address, 35, events_since(h0, reader.history()).skip(cut), error)) by {
                        reveal(Image::field_fails);
                    }
                    assert(Self::fails_at_field(address, events_since(h0, reader.history()), error));
                }
                return Err(error);
            },
        };
        let ghost g36 = reader.history();
        proof {
            lemma_prefix_trans(h0, g35, g36);
            assert(cursor.end() == Self::end_before(address, 36));
        }
        let field36 = match cursor.field::<MonoInternalHashTable<Eager<Ptr<Class>>>, M>(reader, "Image", "class_cache") {
            Ok(value) => value,
            Err(error) => {
                proof {
                    lemma_events_chain(h0, g36, reader.history());
                    let cut = events_since(h0, g36).len() as int;
                    assert(Self::field_fails(address, 36, events_since(h0, reader.history()).skip(cut), error)) by {
                        reveal(Image::field_fails);
                    }
                    assert(Self::fails_at_field(address, events_since(h0, reader.history()), error));
                }
                return Err(error);
            },
        };
        let ghost g37 = reader.history();
        proof {
            lemma_prefix_trans(h0, g36, g37);
            assert(cursor.end() == Self::end_before(address, 37));
        }
        let field37 = match cursor.field::<Option<Address>, M>(reader, "Image", "methodref_cache") {
            Ok(value) => value,
            Err(error) => {
                proof {
                    lemma_events_chain(h0, g37, reader.history());
                    let cut = events_since(h0, g37).len() as int;
                    assert(Self::field_fails(address, 37, events_since(h0, reader.history()).skip(cut), error)) by {
                        reveal(Image::field_fails);
                    }
                    assert(Self::fails_at_field(address, events_since(h0, reader.history()), error));
                }
                return Err(error);
            },
        };
        let ghost g38 = reader.history();
        proof {
            lemma_prefix_trans(h0, g37, g38);
            assert(cursor.end() == Self::end_before(address, 38));
        }
        let field38 = match cursor.field::<Option<Address>, M>(reader, "Image", "field_cache") {
            Ok(value) => value,
            Err(error) => {
                proof {
                    lemma_events_chain(h0, g38, reader.history());
                    let cut = events_since(h0, g38).len() as int;
                    assert(Self::field_fails(address, 38, events_since(h0, reader.history()).skip(cut), error)) by {
                        reveal(Image::field_fails);
                    }
                    assert(Self::fails_at_field(address, events_since(h0, reader.history()), error));
                }
                return Err(error);
            },
        };
        let ghost g39 = reader.history();
        proof {
            lemma_prefix_trans(h0, g38, g39);
            assert(cursor.end() == Self::end_before(address, 39));
        }
        let field39 = match cursor.field::<Option<Address>, M>(reader, "Image", "typespec_cache") {
            Ok(value) => value,
            Err(error) => {
                proof {
                    lemma_events_chain(h0, g39, reader.history());
                    let cut = events_since(h0, g39).len() as int;
                    assert(Self::field_fails(address, 39, events_since(h0, reader.history()).skip(cut), error)) by {
                        reveal(Image::field_fails);
                    }
                    assert(Self::fails_at_field(address, events_since(h0, reader.history()), error));
                }
                return Err(error);
            },
        };
        let ghost g40 = reader.history();
        proof {
            lemma_prefix_trans(h0, g39, g40);
            assert(cursor.end() == Self::end_before(address, 40));
        }
        let part = ImagePart3 { field30, field31, field32, field33, field34, field35, field36, field37, field38, field39 };
        let ghost histories = Seq::new(11, |i: int|
            if i == 0 {
                g30
            } else if i == 1 {
                g31
            } else if i == 2 {
                g32
            } else if i == 3 {
                g33
            } else if i == 4 {
                g34
            } else if i == 5 {
                g35
            } else if i == 6 {
                g36
            } else if i == 7 {
                g37
            } else if i == 8 {
                g38
            } else if i == 9 {
                g39
            } else {
                g40
            });
        proof {
            assert forall|i: int| 0 <= i < 10 implies (#[trigger] histories[i]).is_prefix_of(histories[i + 1])
                && Self::part3_read(address, part, 30 + i, events_since(histories[i], histories[i + 1])) by {
                if i == 0 {
                    assert(Self::part3_read(address, part, 30, events_since(g30, g31))) by {
                        reveal(Image::part3_read);
                    }
                } else if i == 1 {
                    assert(Self::part3_read(address, part, 31, events_since(g31, g32))) by {
                        reveal(Image::part3_read);
                    }
                } else if i == 2 {
                    assert(Self::part3_read(address, part, 32, events_since(g32, g33))) by {
                        reveal(Image::part3_read);
                    }
                } else if i == 3 {
                    assert(Self::part3_read(address, part, 33, events_since(g33, g34))) by {
                        reveal(Image::part3_read);
                    }
                } else if i == 4 {
                    assert(Self::part3_read(address, part, 34, events_since(g34, g35))) by {
                        reveal(Image::part3_read);
                    }
                } else if i == 5 {
                    assert(Self::part3_read(address, part, 35, events_since(g35, g36))) by {
                        reveal(Image::part3_read);
                    }
                } else if i == 6 {
                    assert(Self::part3_read(address, part, 36, events_since(g36, g37))) by {
                        reveal(Image::part3_read);
                    }
                } else if i == 7 {
                    assert(Self::part3_read(address, part, 37, events_since(g37, g38))) by {
                        reveal(Image::part3_read);
                    }
                } else if i == 8 {
                    assert(Self::part3_read(address, part, 38, events_since(g38, g39))) by {
                        reveal(Image::part3_read);
                    }
                } else if i == 9 {
                    assert(Self::part3_read(address, part, 39, events_since(g39, g40))) by {
                        reveal(Image::part3_read);
                    }
                }
            }
        }
        Ok((part, Ghost(histories)))
    }

    /// What the reading of field `index` did to arrive at that field of `part`.
    #[verifier::opaque]
    spec fn part4_read(address: Address, part: ImagePart4, index: int, events: Seq<ReadEvent>) -> bool {
        if index == 40 {
            field_step::<Option<Address>>(
                address,
                Self::end_before(address, 40),
                field_context_text("Image"@, "memberref_signatures"@),
                events,
                Ok(part.field40),
            )
        } else if index == 41 {
            field_step::<Option<Address>>(
                address,
                Self::end_before(address, 41),
                field_context_text("Image"@, "method_signatures"@),
                events,
                Ok(part.field41),
            )
        } else if index == 42 {
            field_step::<Eager<Ptr<GHashTable<String, Eager<Ptr<GHashTable<String, u64>>>>>>>(
                address,
                Self::end_before(address, 42),
                field_context_text("Image"@, "name_cache"@),
                events,
                Ok(part.field42),
            )
        } else if index == 43 {
            field_step::<Option<Address>>(
                address,
                Self::end_before(address, 43),
                field_context_text("Image"@, "array_cache"@),
                events,
                Ok(part.field43),
            )
        } else if index == 44 {
            field_step::<Option<Address>>(
                address,
                Self::end_before(address, 44),
                field_context_text("Image"@, "ptr_cache"@),
                events,
                Ok(part.field44),
            )
        } else if index == 45 {
            field_step::<Option<Address>>(
                address,
                Self::end_before(address, 45),
                field_context_text("Image"@, "szarray_cache"@),
                events,
                Ok(part.field45),
            )
        } else if index == 46 {
            field_step::<[u8; 64]>(
                address,
                Self::end_before(address, 46),
                field_context_text("Image"@, "szarray_cache_lock"@),
                events,
                Ok(part.field46),
            )
        } else if index == 47 {
            field_step::<Option<Address>>(
                address,
                Self::end_before(address, 47),
                field_context_text("Image"@, "native_func_wrapper_cache"@),
                events,
                Ok(part.field47),
            )
        } else if index == 48 {
            field_step::<Option<Address>>(
                address,
                Self::end_before(address, 48),
                field_context_text("Image"@, "runtime_invoke_vcall_cache"@),
                events,
                Ok(part.field48),
            )
        } else {
            field_step::<Option<Address>>(
                address,
                Self::end_before(address, 49),
                field_context_text("Image"@, "wrapper_param_names"@),
                events,
                Ok(part.field49),
            )
        }
    }

    /// Reads the fields 40 to 49, in declaration order, from where
    /// `cursor` stands.
    fn read_part4<M: MemoryReader>(reader: &mut M, cursor: &mut FieldCursor, Ghost(address): Ghost<Address>) -> (r: Result<
        (ImagePart4, Ghost<Seq<Seq<ReadEvent>>>),
        Error,
    >)
        requires
            old(cursor).origin() == address,
            old(cursor).end() == Self::end_before(address, 40),
        ensures
            old(reader).history().is_prefix_of(final(reader).history()),
            final(cursor).origin() == address,
            match r {
                Ok((part, histories)) => {
                    &&& final(cursor).end() == Self::end_before(address, 50)
                    &&& histories@.len() == 11
                    &&& histories@[0] == old(reader).history()
                    &&& histories@[10] == final(reader).history()
                    &&& forall|i: int|
                        0 <= i < 10 ==> (#[trigger] histories@[i]).is_prefix_of(histories@[i + 1])
                            && Self::part4_read(
                            address,
                            part,
                            40 + i,
                            events_since(histories@[i], histories@[i + 1]),
                        )
                },
                Err(error) => Self::fails_at_field(
                    address,
                    events_since(old(reader).history(), final(reader).history()),
                    error,
                ),
            },
    {
        let ghost h0 = reader.history();
        let ghost g40 = h0;
        proof {
            Self::lemma_fields();
            lemma_no_events(h0);
            assert(Self::end_before(address, 0) == address@);
        }
        let field40 = match cursor.field::<Option<Address>, M>(reader, "Image", "memberref_signatures") {
            Ok(value) => value,
            Err(error) => {
                proof {
                    lemma_events_chain(h0, g40, reader.history());
                    let cut = events_since(h0, g40).len() as int;
                    assert(Self::field_fails(address, 40, events_since(h0, reader.history()).skip(cut), error)) by {
                        reveal(Image::field_fails);
                    }
                    assert(Self::fails_at_field(address, events_since(h0, reader.history()), error));
                }
                return Err(error);
            },
        };
        let ghost g41 = reader.history();
        proof {
            lemma_prefix_trans(h0, g40, g41);
            assert(cursor.end() == Self::end_before(address, 41));
        }
        let field41 = match cursor.field::<Option<Address>, M>(reader, "Image", "method_signatures") {
            Ok(value) => value,
            Err(error) => {
                proof {
                    lemma_events_chain(h0, g41, reader.history());
                    let cut = events_since(h0, g41).len() as int;
                    assert(Self::field_fails(address, 41, events_since(h0, reader.history()).skip(cut), error)) by {
                        reveal(Image::field_fails);
                    }
                    assert(Self::fails_at_field(address, events_since(h0, reader.history()), error));
                }
                return Err(error);
            },
        };
        let ghost g42 = reader.history();
        proof {
            lemma_prefix_trans(h0, g41, g42);
            assert(cursor.end() == Self::end_before(address, 42));
        }
        let field42 = match cursor.field::<Eager<Ptr<GHashTable<String, Eager<Ptr<GHashTable<String, u64>>>>>>, M>(reader, "Image", "name_cache") {
            Ok(value) => value,
            Err(error) => {
                proof {
                    lemma_events_chain(h0, g42, reader.history());
                    let cut = events_since(h0, g42).len() as int;
                    assert(Self::field_fails(address, 42, events_since(h0, reader.history()).skip(cut), error)) by {
                        reveal(Image::field_fails);
                    }
                    assert(Self::fails_at_field(address, events_since(h0, reader.history()), error));
                }
                return Err(error);
            },
        };
        let ghost g43 = reader.history();
        proof {
            lemma_prefix_trans(h0, g42, g43);
            assert(cursor.end() == Self::end_before(address, 43));
        }
        let field43 = match cursor.field::<Option<Address>, M>(reader, "Image", "array_cache") {
            Ok(value) => value,
            Err(error) => {
                proof {
                    lemma_events_chain(h0, g43, reader.history());
                    let cut = events_since(h0, g43).len() as int;
                    assert(Self::field_fails(address, 43, events_since(h0, reader.history()).skip(cut), error)) by {
                        reveal(Image::field_fails);
                    }
                    assert(Self::fails_at_field(address, events_since(h0, reader.history()), error));
                }
                return Err(error);
            },
        };
        let ghost g44 = reader.history();
        proof {
            lemma_prefix_trans(h0, g43, g44);
            assert(cursor.end() == Self::end_before(address, 44));
        }
        let field44 = match cursor.field::<Option<Address>, M>(reader, "Image", "ptr_cache") {
            Ok(value) => value,
            Err(error) => {
                proof {
                    lemma_events_chain(h0, g44, reader.history());
                    let cut = events_since(h0, g44).len() as int;
                    assert(Self::field_fails(address, 44, events_since(h0, reader.history()).skip(cut), error)) by {
                        reveal(Image::field_fails);
                    }
                    assert(Self::fails_at_field(address, events_since(h0, reader.history()), error));
                }
                return Err(error);
            },
        };
        let ghost g45 = reader.history();
        proof {
            lemma_prefix_trans(h0, g44, g45);
            assert(cursor.end() == Self::end_before(address, 45));
        }
        let field45 = match cursor.field::<Option<Address>, M>(reader, "Image", "szarray_cache") {
            Ok(value) => value,
            Err(error) => {
                proof {
                    lemma_events_chain(h0, g45, reader.history());
                    let cut = events_since(h0, g45).len() as int;
                    assert(Self::field_fails(address, 45, events_since(h0, reader.history()).skip(cut), error)) by {
                        reveal(Image::field_fails);
                    }
                    assert(Self::fails_at_field(address, events_since(h0, reader.history()), error));
                }
                return Err(error);
            },
        };
        let ghost g46 = reader.history();
        proof {
            lemma_prefix_trans(h0, g45, g46);
            assert(cursor.end() == Self::end_before(address, 46));
        }
        let field46 = match cursor.field::<[u8; 64], M>(reader, "Image", "szarray_cache_lock") {
            Ok(value) => value,
            Err(error) => {
                proof {
                    lemma_events_chain(h0, g46, reader.history());
                    let cut = events_since(h0, g46).len() as int;
                    assert(Self::field_fails(address, 46, events_since(h0, reader.history()).skip(cut), error)) by {
                        reveal(Image::field_fails);
                    }
                    assert(Self::fails_at_field(address, events_since(h0, reader.history()), error));
                }
                return Err(error);
            },
        };
        let ghost g47 = reader.history();
        proof {
            lemma_prefix_trans(h0, g46, g47);
            assert(cursor.end() == Self::end_before(address, 47));
        }
        let field47 = match cursor.field::<Option<Address>, M>(reader, "Image", "native_func_wrapper_cache") {
            Ok(value) => value,
            Err(error) => {
                proof {
                    lemma_events_chain(h0, g47, reader.history());
                    let cut = events_since(h0, g47).len() as int;
                    assert(Self::field_fails(address, 47, events_since(h0, reader.history()).skip(cut), error)) by {
                        reveal(Image::field_fails);
                    }
                    assert(Self::fails_at_field(address, events_since(h0, reader.history()), error));
                }
                return Err(error);
            },
        };
        let ghost g48 = reader.history();
        proof {
            lemma_prefix_trans(h0, g47, g48);
            assert(cursor.end() == Self::end_before(address, 48));
        }
        let field48 = match cursor.field::<Option<Address>, M>(reader, "Image", "runtime_invoke_vcall_cache") {
            Ok(value) => value,
            Err(error) => {
                proof {
                    lemma_events_chain(h0, g48, reader.history());
                    let cut = events_since(h0, g48).len() as int;
                    assert(Self::field_fails(address, 48, events_since(h0, reader.history()).skip(cut), error)) by {
                        reveal(Image::field_fails);
                    }
                    assert(Self::fails_at_field(address, events_since(h0, reader.history()), error));
                }
                return Err(error);
            },
        };
        let ghost g49 = reader.history();
        proof {
            lemma_prefix_trans(h0, g48, g49);
            assert(cursor.end() == Self::end_before(address, 49));
        }
        let field49 = match cursor.field::<Option<Address>, M>(reader, "Image", "wrapper_param_names") {
            Ok(value) => value,
            Err(error) => {
                proof {
                    lemma_events_chain(h0, g49, reader.history());
                    let cut = events_since(h0, g49).len() as int;
                    assert(Self::field_fails(address, 49, events_since(h0, reader.history()).skip(cut), error)) by {
                        reveal(Image::field_fails);
                    }
                    assert(Self::fails_at_field(address, events_since(h0, reader.history()), error));
                }
                return Err(error);
            },
        };
        let ghost g50 = reader.history();
        proof {
            lemma_prefix_trans(h0, g49, g50);
            assert(cursor.end() == Self::end_before(address, 50));
        }
        let part = ImagePart4 { field40, field41, field42, field43, field44, field45, field46, field47, field48, field49 };
        let ghost histories = Seq::new(11, |i: int|
            if i == 0 {
                g40
            } else if i == 1 {
                g41
            } else if i == 2 {
                g42
            } else if i == 3 {
                g43
            } else if i == 4 {
                g44
            } else if i == 5 {
                g45
            } else if i == 6 {
                g46
            } else if i == 7 {
                g47
            } else if i == 8 {
                g48
            } else if i == 9 {
                g49
            } else {
                g50
            });
        proof {
            assert forall|i: int| 0 <= i < 10 implies (#[trigger] histories[i]).is_prefix_of(histories[i + 1])
                && Self::part4_read(address, part, 40 + i, events_since(histories[i], histories[i + 1])) by {
                if i == 0 {
                    assert(Self::part4_read(address, part, 40, events_since(g40, g41))) by {
                        reveal(Image::part4_read);
                    }
                } else if i == 1 {
                    assert(Self::part4_read(address, part, 41, events_since(g41, g42))) by {
                        reveal(Image::part4_read);
                    }
                } else if i == 2 {
                    assert(Self::part4_read(address, part, 42, events_since(g42, g43))) by {
                        reveal(Image::part4_read);
                    }
                } else if i == 3 {
                    assert(Self::part4_read(address, part, 43, events_since(g43, g44))) by {
                        reveal(Image::part4_read);
                    }
                } else if i == 4 {
                    assert(Self::part4_read(address, part, 44, events_since(g44, g45))) by {
                        reveal(Image::part4_read);
                    }
                } else if i == 5 {
                    assert(Self::part4_read(address, part, 45, events_since(g45, g46))) by {
                        reveal(Image::part4_read);
                    }
                } else if i == 6 {
                    assert(Self::part4_read(address, part, 46, events_since(g46, g47))) by {
                        reveal(Image::part4_read);
                    }
                } else if i == 7 {
                    assert(Self::part4_read(address, part, 47, events_since(g47, g48))) by {
                        reveal(Image::part4_read);
                    }
                } else if i == 8 {
                    assert(Self::part4_read(address, part, 48, events_since(g48, g49))) by {
                        reveal(Image::part4_read);
                    }
                } else if i == 9 {
                    assert(Self::part4_read(address, part, 49, events_since(g49, g50))) by {
                        reveal(Image::part4_read);
                    }
                }
            }
        }
        Ok((part, Ghost(histories)))
    }

    /// What the reading of field `index` did to arrive at that field of `part`.
    #[verifier::opaque]
    spec fn part5_read(address: Address, part: ImagePart5, index: int, events: Seq<ReadEvent>) -> bool {
        if index == 50 {
            field_step::<Option<Address>>(
                address,
                Self::end_before(address, 50),
                field_context_text("Image"@, "array_accessor_cache"@),
                events,
                Ok(part.field50),
            )
        } else if index == 51 {
            field_step::<Option<Address>>(
                address,
                Self::end_before(address, 51),
                field_context_text("Image"@, "ldfld_wrapper_cache"@),
                events,
                Ok(part.field51),
            )
        } else if index == 52 {
            field_step::<Option<Address>>(
                address,
                Self::end_before(address, 52),
                field_context_text("Image"@, "ldflda_wrapper_cache"@),
                events,
                Ok(part.field52),
            )
        } else if index == 53 {
            field_step::<Option<Address>>(
                address,
                Self::end_before(address, 53),
                field_context_text("Image"@, "stfld_wrapper_cache"@),
                events,
                Ok(part.field53),
            )
        } else if index == 54 {
            field_step::<Option<Address>>(
                address,
                Self::end_before(address, 54),
                field_context_text("Image"@, "isinst_cache"@),
                events,
                Ok(part.field54),
            )
        } else if index == 55 {
            field_step::<Option<Address>>(
                address,
                Self::end_before(address, 55),
                field_context_text("Image"@, "icall_wrapper_cache"@),
                events,
                Ok(part.field55),
            )
        } else if index == 56 {
            field_step::<Option<Address>>(
                address,
                Self::end_before(address, 56),
                field_context_text("Image"@, "castclass_cache"@),
                events,
                Ok(part.field56),
            )
        } else if index == 57 {
            field_step::<Option<Address>>(
                address,
                Self::end_before(address, 57),
                field_context_text("Image"@, "proxy_isinst_cache"@),
                events,
                Ok(part.field57),
            )
        } else if index == 58 {
            field_step::<Option<Address>>(
                address,
                Self::end_before(address, 58),
                field_context_text("Image"@, "rgctx_template_hash"@),
                events,
                Ok(part.field58),
            )
        } else {
            field_step::<Option<Address>>(
                address,
                Self::end_before(address, 59),
                field_context_text("Image"@, "property_hash"@),
                events,
                Ok(part.field59),
            )
        }
    }

    /// Reads the fields 50 to 59, in declaration order, from where
    /// `cursor` stands.
    fn read_part5<M: MemoryReader>(reader: &mut M, cursor: &mut FieldCursor, Ghost(address): Ghost<Address>) -> (r: Result<
        (ImagePart5, Ghost<Seq<Seq<ReadEvent>>>),
        Error,
    >)
        requires
            old(cursor).origin() == address,
            old(cursor).end() == Self::end_before(address, 50),
        ensures
            old(reader).history().is_prefix_of(final(reader).history()),
            final(cursor).origin() == address,
            match r {
                Ok((part, histories)) => {
                    &&& final(cursor).end() == Self::end_before(address, 60)
                    &&& histories@.len() == 11
                    &&& histories@[0] == old(reader).history()
                    &&& histories@[10] == final(reader).history()
                    &&& forall|i: int|
                        0 <= i < 10 ==> (#[trigger] histories@[i]).is_prefix_of(histories@[i + 1])
                            && Self::part5_read(
                            address,
                            part,
                            50 + i,
                            events_since(histories@[i], histories@[i + 1]),
                        )
                },
                Err(error) => Self::fails_at_field(
                    address,
                    events_since(old(reader).history(), final(reader).history()),
                    error,
                ),
            },
    {
        let ghost h0 = reader.history();
        let ghost g50 = h0;
        proof {
            Self::lemma_fields();
            lemma_no_events(h0);
            assert(Self::end_before(address, 0) == address@);
        }
        let field50 = match cursor.field::<Option<Address>, M>(reader, "Image", "array_accessor_cache") {
            Ok(value) => value,
            Err(error) => {
                proof {
                    lemma_events_chain(h0, g50, reader.history());
                    let cut = events_since(h0, g50).len() as int;
                    assert(Self::field_fails(address, 50, events_since(h0, reader.history()).skip(cut), error)) by {
                        reveal(Image::field_fails);
                    }
                    assert(Self::fails_at_field(address, events_since(h0, reader.history()), error));
                }
                return Err(error);
            },
        };
        let ghost g51 = reader.history();
        proof {
            lemma_prefix_trans(h0, g50, g51);
            assert(cursor.end() == Self::end_before(address, 51));
        }
        let field51 = match cursor.field::<Option<Address>, M>(reader, "Image", "ldfld_wrapper_cache") {
            Ok(value) => value,
            Err(error) => {
                proof {
                    lemma_events_chain(h0, g51, reader.history());
                    let cut = events_since(h0, g51).len() as int;
                    assert(Self::field_fails(address, 51, events_since(h0, reader.history()).skip(cut), error)) by {
                        reveal(Image::field_fails);
                    }
                    assert(Self::fails_at_field(address, events_since(h0, reader.history()), error));
                }
                return Err(error);
            },
        };
        let ghost g52 = reader.history();
        proof {
            lemma_prefix_trans(h0, g51, g52);
            assert(cursor.end() == Self::end_before(address, 52));
        }
        let field52 = match cursor.field::<Option<Address>, M>(reader, "Image", "ldflda_wrapper_cache") {
            Ok(value) => value,
            Err(error) => {
                proof {
                    lemma_events_chain(h0, g52, reader.history());
                    let cut = events_since(h0, g52).len() as int;
                    assert(Self::field_fails(address, 52, events_since(h0, reader.history()).skip(cut), error)) by {
                        reveal(Image::field_fails);
                    }
                    assert(Self::fails_at_field(address, events_since(h0, reader.history()), error));
                }
                return Err(error);
            },
        };
        let ghost g53 = reader.history();
        proof {
            lemma_prefix_trans(h0, g52, g53);
            assert(cursor.end() == Self::end_before(address, 53));
        }
        let field53 = match cursor.field::<Option<Address>, M>(reader, "Image", "stfld_wrapper_cache") {
            Ok(value) => value,
            Err(error) => {
                proof {
                    lemma_events_chain(h0, g53, reader.history());
                    let cut = events_since(h0, g53).len() as int;
                    assert(Self::field_fails(address, 53, events_since(h0, reader.history()).skip(cut), error)) by {
                        reveal(Image::field_fails);
                    }
                    assert(Self::fails_at_field(address, events_since(h0, reader.history()), error));
                }
                return Err(error);
            },
        };
        let ghost g54 = reader.history();
        proof {
            lemma_prefix_trans(h0, g53, g54);
            assert(cursor.end() == Self::end_before(address, 54));
        }
        let field54 = match cursor.field::<Option<Address>, M>(reader, "Image", "isinst_cache") {
            Ok(value) => value,
            Err(error) => {
                proof {
                    lemma_events_chain(h0, g54, reader.history());
                    let cut = events_since(h0, g54).len() as int;
                    assert(Self::field_fails(address, 54, events_since(h0, reader.history()).skip(cut), error)) by {
                        reveal(Image::field_fails);
                    }
                    assert(Self::fails_at_field(address, events_since(h0, reader.history()), error));
                }
                return Err(error);
            },
        };
        let ghost g55 = reader.history();
        proof {
            lemma_prefix_trans(h0, g54, g55);
            assert(cursor.end() == Self::end_before(address, 55));
        }
        let field55 = match cursor.field::<Option<Address>, M>(reader, "Image", "icall_wrapper_cache") {
            Ok(value) => value,
            Err(error) => {
                proof {
                    lemma_events_chain(h0, g55, reader.history());
                    let cut = events_since(h0, g55).len() as int;
                    assert(Self::field_fails(address, 55, events_since(h0, reader.history()).skip(cut), error)) by {
                        reveal(Image::field_fails);
                    }
                    assert(Self::fails_at_field(address, events_since(h0, reader.history()), error));
                }
                return Err(error);
            },
        };
        let ghost g56 = reader.history();
        proof {
            lemma_prefix_trans(h0, g55, g56);
            assert(cursor.end() == Self::end_before(address, 56));
        }
        let field56 = match cursor.field::<Option<Address>, M>(reader, "Image", "castclass_cache") {
            Ok(value) => value,
            Err(error) => {
                proof {
                    lemma_events_chain(h0, g56, reader.history());
                    let cut = events_since(h0, g56).len() as int;
                    assert(Self::field_fails(address, 56, events_since(h0, reader.history()).skip(cut), error)) by {
                        reveal(Image::field_fails);
                    }
                    assert(Self::fails_at_field(address, events_since(h0, reader.history()), error));
                }
                return Err(error);
            },
        };
        let ghost g57 = reader.history();
        proof {
            lemma_prefix_trans(h0, g56, g57);
            assert(cursor.end() == Self::end_before(address, 57));
        }
        let field57 = match cursor.field::<Option<Address>, M>(reader, "Image", "proxy_isinst_cache") {
            Ok(value) => value,
            Err(error) => {
                proof {
                    lemma_events_chain(h0, g57, reader.history());
                    let cut = events_since(h0, g57).len() as int;
                    assert(Self::field_fails(address, 57, events_since(h0, reader.history()).skip(cut), error)) by {
                        reveal(Image::field_fails);
                    }
                    assert(Self::fails_at_field(address, events_since(h0, reader.history()), error));
                }
                return Err(error);
            },
        };
        let ghost g58 = reader.history();
        proof {
            lemma_prefix_trans(h0, g57, g58);
            assert(cursor.end() == Self::end_before(address, 58));
        }
        let field58 = match cursor.field::<Option<Address>, M>(reader, "Image", "rgctx_template_hash") {
            Ok(value) => value,
            Err(error) => {
                proof {
                    lemma_events_chain(h0, g58, reader.history());
                    let cut = events_since(h0, g58).len() as int;
                    assert(Self::field_fails(address, 58, events_since(h0, reader.history()).skip(cut), error)) by {
                        reveal(Image::field_fails);
                    }
                    assert(Self::fails_at_field(address, events_since(h0, reader.history()), error));
                }
                return Err(error);
            },
        };
        let ghost g59 = reader.history();
        proof {
            lemma_prefix_trans(h0, g58, g59);
            assert(cursor.end() == Self::end_before(address, 59));
        }
        let field59 = match cursor.field::<Option<Address>, M>(reader, "Image", "property_hash") {
            Ok(value) => value,
            Err(error) => {
                proof {
                    lemma_events_chain(h0, g59, reader.history());
                    let cut = events_since(h0, g59).len() as int;
                    assert(Self::field_fails(address, 59, events_since(h0, reader.history()).skip(cut), error)) by {
                        reveal(Image::field_fails);
                    }
                    assert(Self::fails_at_field(address, events_since(h0, reader.history()), error));
                }
                return Err(error);
            },
        };
        let ghost g60 = reader.history();
        proof {
            lemma_prefix_trans(h0, g59, g60);
            assert(cursor.end() == Self::end_before(address, 60));
        }
        let part = ImagePart5 { field50, field51, field52, field53, field54, field55, field56, field57, field58, field59 };
        let ghost histories = Seq::new(11, |i: int|
            if i == 0 {
                g50
            } else if i == 1 {
                g51
            } else if i == 2 {
                g52
            } else if i == 3 {
                g53
            } else if i == 4 {
                g54
            } else if i == 5 {
                g55
            } else if i == 6 {
                g56
            } else if i == 7 {
                g57
            } else if i == 8 {
                g58
            } else if i == 9 {
                g59
            } else {
                g60
            });
        proof {
            assert forall|i: int| 0 <= i < 10 implies (#[trigger] histories[i]).is_prefix_of(histories[i + 1])
                && Self::part5_read(address, part, 50 + i, events_since(histories[i], histories[i + 1])) by {
                if i == 0 {
                    assert(Self::part5_read(address, part, 50, events_since(g50, g51))) by {
                        reveal(Image::part5_read);
                    }
                } else if i == 1 {
                    assert(Self::part5_read(address, part, 51, events_since(g51, g52))) by {
                        reveal(Image::part5_read);
                    }
                } else if i == 2 {
                    assert(Self::part5_read(address, part, 52, events_since(g52, g53))) by {
                        reveal(Image::part5_read);
                    }
                } else if i == 3 {
                    assert(Self::part5_read(address, part, 53, events_since(g53, g54))) by {
                        reveal(Image::part5_read);
                    }
                } else if i == 4 {
                    assert(Self::part5_read(address, part, 54, events_since(g54, g55))) by {
                        reveal(Image::part5_read);
                    }
                } else if i == 5 {
                    assert(Self::part5_read(address, part, 55, events_since(g55, g56))) by {
                        reveal(Image::part5_read);
                    }
                } else if i == 6 {
                    assert(Self::part5_read(address, part, 56, events_since(g56, g57))) by {
                        reveal(Image::part5_read);
                    }
                } else if i == 7 {
                    assert(Self::part5_read(address, part, 57, events_since(g57, g58))) by {
                        reveal(Image::part5_read);
                    }
                } else if i == 8 {
                    assert(Self::part5_read(address, part, 58, events_since(g58, g59))) by {
                        reveal(Image::part5_read);
                    }
                } else if i == 9 {
                    assert(Self::part5_read(address, part, 59, events_since(g59, g60))) by {
                        reveal(Image::part5_read);
                    }
                }
            }
        }
        Ok((part, Ghost(histories)))
    }

    /// What the reading of field `index` did to arrive at that field of `part`.
    #[verifier::opaque]
    spec fn part6_read(address: Address, part: ImagePart6, index: int, events: Seq<ReadEvent>) -> bool {
        if index == 60 {
            field_step::<Option<Address>>(
                address,
                Self::end_before(address, 60),
                field_context_text("Image"@, "reflection_info"@),
                events,
                Ok(part.field60),
            )
        } else if index == 61 {
            field_step::<Option<Address>>(
                address,
                Self::end_before(address, 61),
                field_context_text("Image"@, "user_info"@),
                events,
                Ok(part.field61),
            )
        } else if index == 62 {
            field_step::<Option<Address>>(
                address,
                Self::end_before(address, 62),
                field_context_text("Image"@, "dll_map"@),
                events,
                Ok(part.field62),
            )
        } else if index == 63 {
            field_step::<Option<Address>>(
                address,
                Self::end_before(address, 63),
                field_context_text("Image"@, "interface_bitset"@),
                events,
                Ok(part.field63),
            )
        } else if index == 64 {
            field_step::<Option<Address>>(
                address,
                Self::end_before(address, 64),
                field_context_text("Image"@, "reflection_info_unregister_classes"@),
                events,
                Ok(part.field64),
            )
        } else if index == 65 {
            field_step::<Option<Address>>(
                address,
                Self::end_before(address, 65),
                field_context_text("Image"@, "image_sets"@),
                events,
                Ok(part.field65),
            )
        } else if index == 66 {
            field_step::<[Option<Address>; 21]>(
                address,
                Self::end_before(address, 66),
                field_context_text("Image"@, "wrapper_caches"@),
                events,
                Ok(part.field66),
            )
        } else if index == 67 {
            field_step::<Option<Address>>(
                address,
                Self::end_before(address, 67),
                field_context_text("Image"@, "var_cache_fast"@),
                events,
                Ok(part.field67),
            )
        } else if index == 68 {
            field_step::<Option<Address>>(
                address,
                Self::end_before(address, 68),
                field_context_text("Image"@, "mvar_cache_fast"@),
                events,
                Ok(part.field68),
            )
        } else {
            field_step::<Option<Address>>(
                address,
                Self::end_before(address, 69),
                field_context_text("Image"@, "var_cache_slow"@),
                events,
                Ok(part.field69),
            )
        }
    }

    /// Reads the fields 60 to 69, in declaration order, from where
    /// `cursor` stands.
    fn read_part6<M: MemoryReader>(reader: &mut M, cursor: &mut FieldCursor, Ghost(address): Ghost<Address>) -> (r: Result<
        (ImagePart6, Ghost<Seq<Seq<ReadEvent>>>),
        Error,
    >)
        requires
            old(cursor).origin() == address,
            old(cursor).end() == Self::end_before(address, 60),
        ensures
            old(reader).history().is_prefix_of(final(reader).history()),
            final(cursor).origin() == address,
            match r {
                Ok((part, histories)) => {
                    &&& final(cursor).end() == Self::end_before(address, 70)
                    &&& histories@.len() == 11
                    &&& histories@[0] == old(reader).history()
                    &&& histories@[10] == final(reader).history()
                    &&& forall|i: int|
                        0 <= i < 10 ==> (#[trigger] histories@[i]).is_prefix_of(histories@[i + 1])
                            && Self::part6_read(
                            address,
                            part,
                            60 + i,
                            events_since(histories@[i], histories@[i + 1]),
                        )
                },
                Err(error) => Self::fails_at_field(
                    address,
                    events_since(old(reader).history(), final(reader).history()),
                    error,
                ),
            },
    {
        let ghost h0 = reader.history();
        let ghost g60 = h0;
        proof {
            Self::lemma_fields();
            lemma_no_events(h0);
            assert(Self::end_before(address, 0) == address@);
        }
        let field60 = match cursor.field::<Option<Address>, M>(reader, "Image", "reflection_info") {
            Ok(value) => value,
            Err(error) => {
                proof {
                    lemma_events_chain(h0, g60, reader.history());
                    let cut = events_since(h0, g60).len() as int;
                    assert(Self::field_fails(address, 60, events_since(h0, reader.history()).skip(cut), error)) by {
                        reveal(Image::field_fails);
                    }
                    assert(Self::fails_at_field(address, events_since(h0, reader.history()), error));
                }
                return Err(error);
            },
        };
        let ghost g61 = reader.history();
        proof {
            lemma_prefix_trans(h0, g60, g61);
            assert(cursor.end() == Self::end_before(address, 61));
        }
        let field61 = match cursor.field::<Option<Address>, M>(reader, "Image", "user_info") {
            Ok(value) => value,
            Err(error) => {
                proof {
                    lemma_events_chain(h0, g61, reader.history());
                    let cut = events_since(h0, g61).len() as int;
                    assert(Self::field_fails(address, 61, events_since(h0, reader.history()).skip(cut), error)) by {
                        reveal(Image::field_fails);
                    }
                    assert(Self::fails_at_field(address, events_since(h0, reader.history()), error));
                }
                return Err(error);
            },
        };
        let ghost g62 = reader.history();
        proof {
            lemma_prefix_trans(h0, g61, g62);
            assert(cursor.end() == Self::end_before(address, 62));
        }
        let field62 = match cursor.field::<Option<Address>, M>(reader, "Image", "dll_map") {
            Ok(value) => value,
            Err(error) => {
                proof {
                    lemma_events_chain(h0, g62, reader.history());
                    let cut = events_since(h0, g62).len() as int;
                    assert(Self::field_fails(address, 62, events_since(h0, reader.history()).skip(cut), error)) by {
                        reveal(Image::field_fails);
                    }
                    assert(Self::fails_at_field(address, events_since(h0, reader.history()), error));
                }
                return Err(error);
            },
        };
        let ghost g63 = reader.history();
        proof {
            lemma_prefix_trans(h0, g62, g63);
            assert(cursor.end() == Self::end_before(address, 63));
        }
        let field63 = match cursor.field::<Option<Address>, M>(reader, "Image", "interface_bitset") {
            Ok(value) => value,
            Err(error) => {
                proof {
                    lemma_events_chain(h0, g63, reader.history());
                    let cut = events_since(h0, g63).len() as int;
                    assert(Self::field_fails(address, 63, events_since(h0, reader.history()).skip(cut), error)) by {
                        reveal(Image::field_fails);
                    }
                    assert(Self::fails_at_field(address, events_since(h0, reader.history()), error));
                }
                return Err(error);
            },
        };
        let ghost g64 = reader.history();
        proof {
            lemma_prefix_trans(h0, g63, g64);
            assert(cursor.end() == Self::end_before(address, 64));
        }
        let field64 = match cursor.field::<Option<Address>, M>(reader, "Image", "reflection_info_unregister_classes") {
            Ok(value) => value,
            Err(error) => {
                proof {
                    lemma_events_chain(h0, g64, reader.history());
                    let cut = events_since(h0, g64).len() as int;
                    assert(Self::field_fails(address, 64, events_since(h0, reader.history()).skip(cut), error)) by {
                        reveal(Image::field_fails);
                    }
                    assert(Self::fails_at_field(address, events_since(h0, reader.history()), error));
                }
                return Err(error);
            },
        };
        let ghost g65 = reader.history();
        proof {
            lemma_prefix_trans(h0, g64, g65);
            assert(cursor.end() == Self::end_before(address, 65));
        }
        let field65 = match cursor.field::<Option<Address>, M>(reader, "Image", "image_sets") {
            Ok(value) => value,
            Err(error) => {
                proof {
                    lemma_events_chain(h0, g65, reader.history());
                    let cut = events_since(h0, g65).len() as int;
                    assert(Self::field_fails(address, 65, events_since(h0, reader.history()).skip(cut), error)) by {
                        reveal(Image::field_fails);
                    }
                    assert(Self::fails_at_field(address, events_since(h0, reader.history()), error));
                }
                return Err(error);
            },
        };
        let ghost g66 = reader.history();
        proof {
            lemma_prefix_trans(h0, g65, g66);
            assert(cursor.end() == Self::end_before(address, 66));
        }
        let field66 = match cursor.field::<[Option<Address>; 21], M>(reader, "Image", "wrapper_caches") {
            Ok(value) => value,
            Err(error) => {
                proof {
                    lemma_events_chain(h0, g66, reader.history());
                    let cut = events_since(h0, g66).len() as int;
                    assert(Self::field_fails(address, 66, events_since(h0, reader.history()).skip(cut), error)) by {
                        reveal(Image::field_fails);
                    }
                    assert(Self::fails_at_field(address, events_since(h0, reader.history()), error));
                }
                return Err(error);
            },
        };
        let ghost g67 = reader.history();
        proof {
            lemma_prefix_trans(h0, g66, g67);
            assert(cursor.end() == Self::end_before(address, 67));
        }
        let field67 = match cursor.field::<Option<Address>, M>(reader, "Image", "var_cache_fast") {
            Ok(value) => value,
            Err(error) => {
                proof {
                    lemma_events_chain(h0, g67, reader.history());
                    let cut = events_since(h0, g67).len() as int;
                    assert(Self::field_fails(address, 67, events_since(h0, reader.history()).skip(cut), error)) by {
                        reveal(Image::field_fails);
                    }
                    assert(Self::fails_at_field(address, events_since(h0, reader.history()), error));
                }
                return Err(error);
            },
        };
        let ghost g68 = reader.history();
        proof {
            lemma_prefix_trans(h0, g67, g68);
            assert(cursor.end() == Self::end_before(address, 68));
        }
        let field68 = match cursor.field::<Option<Address>, M>(reader, "Image", "mvar_cache_fast") {
            Ok(value) => value,
            Err(error) => {
                proof {
                    lemma_events_chain(h0, g68, reader.history());
                    let cut = events_since(h0, g68).len() as int;
                    assert(Self::field_fails(address, 68, events_since(h0, reader.history()).skip(cut), error)) by {
                        reveal(Image::field_fails);
                    }
                    assert(Self::fails_at_field(address, events_since(h0, reader.history()), error));
                }
                return Err(error);
            },
        };
        let ghost g69 = reader.history();
        proof {
            lemma_prefix_trans(h0, g68, g69);
            assert(cursor.end() == Self::end_before(address, 69));
        }
        let field69 = match cursor.field::<Option<Address>, M>(reader, "Image", "var_cache_slow") {
            Ok(value) => value,
            Err(error) => {
                proof {
                    lemma_events_chain(h0, g69, reader.history());
                    let cut = events_since(h0, g69).len() as int;
                    assert(Self::field_fails(address, 69, events_since(h0, reader.history()).skip(cut), error)) by {
                        reveal(Image::field_fails);
                    }
                    assert(Self::fails_at_field(address, events_since(h0, reader.history()), error));
                }
                return Err(error);
            },
        };
        let ghost g70 = reader.history();
        proof {
            lemma_prefix_trans(h0, g69, g70);
            assert(cursor.end() == Self::end_before(address, 70));
        }
        let part = ImagePart6 { field60, field61, field62, field63, field64, field65, field66, field67, field68, field69 };
        let ghost histories = Seq::new(11, |i: int|
            if i == 0 {
                g60
            } else if i == 1 {
                g61
            } else if i == 2 {
                g62
            } else if i == 3 {
                g63
            } else if i == 4 {
                g64
            } else if i == 5 {
                g65
            } else if i == 6 {
                g66
            } else if i == 7 {
                g67
            } else if i == 8 {
                g68
            } else if i == 9 {
                g69
            } else {
                g70
            });
        proof {
            assert forall|i: int| 0 <= i < 10 implies (#[trigger] histories[i]).is_prefix_of(histories[i + 1])
                && Self::part6_read(address, part, 60 + i, events_since(histories[i], histories[i + 1])) by {
                if i == 0 {
                    assert(Self::part6_read(address, part, 60, events_since(g60, g61))) by {
                        reveal(Image::part6_read);
                    }
                } else if i == 1 {
                    assert(Self::part6_read(address, part, 61, events_since(g61, g62))) by {
                        reveal(Image::part6_read);
                    }
                } else if i == 2 {
                    assert(Self::part6_read(address, part, 62, events_since(g62, g63))) by {
                        reveal(Image::part6_read);
                    }
                } else if i == 3 {
                    assert(Self::part6_read(address, part, 63, events_since(g63, g64))) by {
                        reveal(Image::part6_read);
                    }
                } else if i == 4 {
                    assert(Self::part6_read(address, part, 64, events_since(g64, g65))) by {
                        reveal(Image::part6_read);
                    }
                } else if i == 5 {
                    assert(Self::part6_read(address, part, 65, events_since(g65, g66))) by {
                        reveal(Image::part6_read);
                    }
                } else if i == 6 {
                    assert(Self::part6_read(address, part, 66, events_since(g66, g67))) by {
                        reveal(Image::part6_read);
                    }
                } else if i == 7 {
                    assert(Self::part6_read(address, part, 67, events_since(g67, g68))) by {
                        reveal(Image::part6_read);
                    }
                } else if i == 8 {
                    assert(Self::part6_read(address, part, 68, events_since(g68, g69))) by {
                        reveal(Image::part6_read);
                    }
                } else if i == 9 {
                    assert(Self::part6_read(address, part, 69, events_since(g69, g70))) by {
                        reveal(Image::part6_read);
                    }
                }
            }
        }
        Ok((part, Ghost(histories)))
    }

    /// What the reading of field `index` did to arrive at that field of `part`.
    #[verifier::opaque]
    spec fn part7_read(address: Address, part: ImagePart7, index: int, events: Seq<ReadEvent>) -> bool {
        if index == 70 {
            field_step::<Option<Address>>(
                address,
                Self::end_before(address, 70),
                field_context_text("Image"@, "mvar_cache_slow"@),
                events,
                Ok(part.field70),
            )
        } else if index == 71 {
            field_step::<Option<Address>>(
                address,
                Self::end_before(address, 71),
                field_context_text("Image"@, "var_cache_constrained"@),
                events,
                Ok(part.field71),
            )
        } else if index == 72 {
            field_step::<Option<Address>>(
                address,
                Self::end_before(address, 72),
                field_context_text("Image"@, "mvar_cache_constrained"@),
                events,
                Ok(part.field72),
            )
        } else if index == 73 {
            field_step::<Option<Address>>(
                address,
                Self::end_before(address, 73),
                field_context_text("Image"@, "pinvoke_scopes"@),
                events,
                Ok(part.field73),
            )
        } else if index == 74 {
            field_step::<Option<Address>>(
                address,
                Self::end_before(address, 74),
                field_context_text("Image"@, "pinvoke_scope_filenames"@),
                events,
                Ok(part.field74),
            )
        } else if index == 75 {
            field_step::<Option<Address>>(
                address,
                Self::end_before(address, 75),
                field_context_text("Image"@, "loader"@),
                events,
                Ok(part.field75),
            )
        } else if index == 76 {
            field_step::<Option<Address>>(
                address,
                Self::end_before(address, 76),
                field_context_text("Image"@, "anonymous_generic_class_container"@),
                events,
                Ok(part.field76),
            )
        } else if index == 77 {
            field_step::<Option<Address>>(
                address,
                Self::end_before(address, 77),
                field_context_text("Image"@, "anonymous_generic_method_container"@),
                events,
                Ok(part.field77),
            )
        } else if index == 78 {
            field_step::<bool>(
                address,
                Self::end_before(address, 78),
                field_context_text("Image"@, "weak_fields_inited"@),
                events,
                Ok(part.field78),
            )
        } else {
            field_step::<Option<Address>>(
                address,
                Self::end_before(address, 79),
                field_context_text("Image"@, "weak_field_indexes"@),
                events,
                Ok(part.field79),
            )
        }
    }

    /// Reads the fields 70 to 79, in declaration order, from where
    /// `cursor` stands.
    fn read_part7<M: MemoryReader>(reader: &mut M, cursor: &mut FieldCursor, Ghost(address): Ghost<Address>) -> (r: Result<
        (ImagePart7, Ghost<Seq<Seq<ReadEvent>>>),
        Error,
    >)
        requires
            old(cursor).origin() == address,
            old(cursor).end() == Self::end_before(address, 70),
        ensures
            old(reader).history().is_prefix_of(final(reader).history()),
            final(cursor).origin() == address,
            match r {
                Ok((part, histories)) => {
                    &&& final(cursor).end() == Self::end_before(address, 80)
                    &&& histories@.len() == 11
                    &&& histories@[0] == old(reader).history()
                    &&& histories@[10] == final(reader).history()
                    &&& forall|i: int|
                        0 <= i < 10 ==> (#[trigger] histories@[i]).is_prefix_of(histories@[i + 1])
                            && Self::part7_read(
                            address,
                            part,
                            70 + i,
                            events_since(histories@[i], histories@[i + 1]),
                        )
                },
                Err(error) => Self::fails_at_field(
                    address,
                    events_since(old(reader).history(), final(reader).history()),
                    error,
                ),
            },
    {
        let ghost h0 = reader.history();
        let ghost g70 = h0;
        proof {
            Self::lemma_fields();
            lemma_no_events(h0);
            assert(Self::end_before(address, 0) == address@);
        }
        let field70 = match cursor.field::<Option<Address>, M>(reader, "Image", "mvar_cache_slow") {
            Ok(value) => value,
            Err(error) => {
                proof {
                    lemma_events_chain(h0, g70, reader.history());
                    let cut = events_since(h0, g70).len() as int;
                    assert(Self::field_fails(address, 70, events_since(h0, reader.history()).skip(cut), error)) by {
                        reveal(Image::field_fails);
                    }
                    assert(Self::fails_at_field(address, events_since(h0, reader.history()), error));
                }
                return Err(error);
            },
        };
        let ghost g71 = reader.history();
        proof {
            lemma_prefix_trans(h0, g70, g71);
            assert(cursor.end() == Self::end_before(address, 71));
        }
        let field71 = match cursor.field::<Option<Address>, M>(reader, "Image", "var_cache_constrained") {
            Ok(value) => value,
            Err(error) => {
                proof {
                    lemma_events_chain(h0, g71, reader.history());
                    let cut = events_since(h0, g71).len() as int;
                    assert(Self::field_fails(address, 71, events_since(h0, reader.history()).skip(cut), error)) by {
                        reveal(Image::field_fails);
                    }
                    assert(Self::fails_at_field(address, events_since(h0, reader.history()), error));
                }
                return Err(error);
            },
        };
        let ghost g72 = reader.history();
        proof {
            lemma_prefix_trans(h0, g71, g72);
            assert(cursor.end() == Self::end_before(address, 72));
        }
        let field72 = match cursor.field::<Option<Address>, M>(reader, "Image", "mvar_cache_constrained") {
            Ok(value) => value,
            Err(error) => {
                proof {
                    lemma_events_chain(h0, g72, reader.history());
                    let cut = events_since(h0, g72).len() as int;
                    assert(Self::field_fails(address, 72, events_since(h0, reader.history()).skip(cut), error)) by {
                        reveal(Image::field_fails);
                    }
                    assert(Self::fails_at_field(address, events_since(h0, reader.history()), error));
                }
                return Err(error);
            },
        };
        let ghost g73 = reader.history();
        proof {
            lemma_prefix_trans(h0, g72, g73);
            assert(cursor.end() == Self::end_before(address, 73));
        }
        let field73 = match cursor.field::<Option<Address>, M>(reader, "Image", "pinvoke_scopes") {
            Ok(value) => value,
            Err(error) => {
                proof {
                    lemma_events_chain(h0, g73, reader.history());
                    let cut = events_since(h0, g73).len() as int;
                    assert(Self::field_fails(address, 73, events_since(h0, reader.history()).skip(cut), error)) by {
                        reveal(Image::field_fails);
                    }
                    assert(Self::fails_at_field(address, events_since(h0, reader.history()), error));
                }
                return Err(error);
            },
        };
        let ghost g74 = reader.history();
        proof {
            lemma_prefix_trans(h0, g73, g74);
            assert(cursor.end() == Self::end_before(address, 74));
        }
        let field74 = match cursor.field::<Option<Address>, M>(reader, "Image", "pinvoke_scope_filenames") {
            Ok(value) => value,
            Err(error) => {
                proof {
                    lemma_events_chain(h0, g74, reader.history());
                    let cut = events_since(h0, g74).len() as int;
                    assert(Self::field_fails(address, 74, events_since(h0, reader.history()).skip(cut), error)) by {
                        reveal(Image::field_fails);
                    }
                    assert(Self::fails_at_field(address, events_since(h0, reader.history()), error));
                }
                return Err(error);
            },
        };
        let ghost g75 = reader.history();
        proof {
            lemma_prefix_trans(h0, g74, g75);
            assert(cursor.end() == Self::end_before(address, 75));
        }
        let field75 = match cursor.field::<Option<Address>, M>(reader, "Image", "loader") {
            Ok(value) => value,
            Err(error) => {
                proof {
                    lemma_events_chain(h0, g75, reader.history());
                    let cut = events_since(h0, g75).len() as int;
                    assert(Self::field_fails(address, 75, events_since(h0, reader.history()).skip(cut), error)) by {
                        reveal(Image::field_fails);
                    }
                    assert(Self::fails_at_field(address, events_since(h0, reader.history()), error));
                }
                return Err(error);
            },
        };
        let ghost g76 = reader.history();
        proof {
            lemma_prefix_trans(h0, g75, g76);
            assert(cursor.end() == Self::end_before(address, 76));
        }
        let field76 = match cursor.field::<Option<Address>, M>(reader, "Image", "anonymous_generic_class_container") {
            Ok(value) => value,
            Err(error) => {
                proof {
                    lemma_events_chain(h0, g76, reader.history());
                    let cut = events_since(h0, g76).len() as int;
                    assert(Self::field_fails(address, 76, events_since(h0, reader.history()).skip(cut), error)) by {
                        reveal(Image::field_fails);
                    }
                    assert(Self::fails_at_field(address, events_since(h0, reader.history()), error));
                }
                return Err(error);
            },
        };
        let ghost g77 = reader.history();
        proof {
            lemma_prefix_trans(h0, g76, g77);
            assert(cursor.end() == Self::end_before(address, 77));
        }
        let field77 = match cursor.field::<Option<Address>, M>(reader, "Image", "anonymous_generic_method_container") {
            Ok(value) => value,
            Err(error) => {
                proof {
                    lemma_events_chain(h0, g77, reader.history());
                    let cut = events_since(h0, g77).len() as int;
                    assert(Self::field_fails(address, 77, events_since(h0, reader.history()).skip(cut), error)) by {
                        reveal(Image::field_fails);
                    }
                    assert(Self::fails_at_field(address, events_since(h0, reader.history()), error));
                }
                return Err(error);
            },
        };
        let ghost g78 = reader.history();
        proof {
            lemma_prefix_trans(h0, g77, g78);
            assert(cursor.end() == Self::end_before(address, 78));
        }
        let field78 = match cursor.field::<bool, M>(reader, "Image", "weak_fields_inited") {
            Ok(value) => value,
            Err(error) => {
                proof {
                    lemma_events_chain(h0, g78, reader.history());
                    let cut = events_since(h0, g78).len() as int;
                    assert(Self::field_fails(address, 78, events_since(h0, reader.history()).skip(cut), error)) by {
                        reveal(Image::field_fails);
                    }
                    assert(Self::fails_at_field(address, events_since(h0, reader.history()), error));
                }
                return Err(error);
            },
        };
        let ghost g79 = reader.history();
        proof {
            lemma_prefix_trans(h0, g78, g79);
            assert(cursor.end() == Self::end_before(address, 79));
        }
        let field79 = match cursor.field::<Option<Address>, M>(reader, "Image", "weak_field_indexes") {
            Ok(value) => value,
            Err(error) => {
                proof {
                    lemma_events_chain(h0, g79, reader.history());
                    let cut = events_since(h0, g79).len() as int;
                    assert(Self::field_fails(address, 79, events_since(h0, reader.history()).skip(cut), error)) by {
                        reveal(Image::field_fails);
                    }
                    assert(Self::fails_at_field(address, events_since(h0, reader.history()), error));
                }
                return Err(error);
            },
        };
        let ghost g80 = reader.history();
        proof {
            lemma_prefix_trans(h0, g79, g80);
            assert(cursor.end() == Self::end_before(address, 80));
        }
        let part = ImagePart7 { field70, field71, field72, field73, field74, field75, field76, field77, field78, field79 };
        let ghost histories = Seq::new(11, |i: int|
            if i == 0 {
                g70
            } else if i == 1 {
                g71
            } else if i == 2 {
                g72
            } else if i == 3 {
                g73
            } else if i == 4 {
                g74
            } else if i == 5 {
                g75
            } else if i == 6 {
                g76
            } else if i == 7 {
                g77
            } else if i == 8 {
                g78
            } else if i == 9 {
                g79
            } else {
                g80
            });
        proof {
            assert forall|i: int| 0 <= i < 10 implies (#[trigger] histories[i]).is_prefix_of(histories[i + 1])
                && Self::part7_read(address, part, 70 + i, events_since(histories[i], histories[i + 1])) by {
                if i == 0 {
                    assert(Self::part7_read(address, part, 70, events_since(g70, g71))) by {
                        reveal(Image::part7_read);
                    }
                } else if i == 1 {
                    assert(Self::part7_read(address, part, 71, events_since(g71, g72))) by {
                        reveal(Image::part7_read);
                    }
                } else if i == 2 {
                    assert(Self::part7_read(address, part, 72, events_since(g72, g73))) by {
                        reveal(Image::part7_read);
                    }
                } else if i == 3 {
                    assert(Self::part7_read(address, part, 73, events_since(g73, g74))) by {
                        reveal(Image::part7_read);
                    }
                } else if i == 4 {
                    assert(Self::part7_read(address, part, 74, events_since(g74, g75))) by {
                        reveal(Image::part7_read);
                    }
                } else if i == 5 {
                    assert(Self::part7_read(address, part, 75, events_since(g75, g76))) by {
                        reveal(Image::part7_read);
                    }
                } else if i == 6 {
                    assert(Self::part7_read(address, part, 76, events_since(g76, g77))) by {
                        reveal(Image::part7_read);
                    }
                } else if i == 7 {
                    assert(Self::part7_read(address, part, 77, events_since(g77, g78))) by {
                        reveal(Image::part7_read);
                    }
                } else if i == 8 {
                    assert(Self::part7_read(address, part, 78, events_since(g78, g79))) by {
                        reveal(Image::part7_read);
                    }
                } else if i == 9 {
                    assert(Self::part7_read(address, part, 79, events_since(g79, g80))) by {
                        reveal(Image::part7_read);
                    }
                }
            }
        }
        Ok((part, Ghost(histories)))
    }

    /// What the reading of field `index` did to arrive at that field of `part`.
    #[verifier::opaque]
    spec fn part8_read(address: Address, part: ImagePart8, index: int, events: Seq<ReadEvent>) -> bool {
        field_step::<[u8; 64]>(
            address,
            Self::end_before(address, 80),
            field_context_text("Image"@, "lock"@),
            events,
            Ok(part.field80),
        )
    }

    /// Reads the fields 80 to 80, in declaration order, from where
    /// `cursor` stands.
    fn read_part8<M: MemoryReader>(reader: &mut M, cursor: &mut FieldCursor, Ghost(address): Ghost<Address>) -> (r: Result<
        (ImagePart8, Ghost<Seq<Seq<ReadEvent>>>),
        Error,
    >)
        requires
            old(cursor).origin() == address,
            old(cursor).end() == Self::end_before(address, 80),
        ensures
            old(reader).history().is_prefix_of(final(reader).history()),
            final(cursor).origin() == address,
            match r {
                Ok((part, histories)) => {
                    &&& final(cursor).end() == Self::end_before(address, 81)
                    &&& histories@.len() == 2
                    &&& histories@[0] == old(reader).history()
                    &&& histories@[1] == final(reader).history()
                    &&& forall|i: int|
                        0 <= i < 1 ==> (#[trigger] histories@[i]).is_prefix_of(histories@[i + 1])
                            && Self::part8_read(
                            address,
                            part,
                            80 + i,
                            events_since(histories@[i], histories@[i + 1]),
                        )
                },
                Err(error) => Self::fails_at_field(
                    address,
                    events_since(old(reader).history(), final(reader).history()),
                    error,
                ),
            },
    {
        let ghost h0 = reader.history();
        let ghost g80 = h0;
        proof {
            Self::lemma_fields();
            lemma_no_events(h0);
            assert(Self::end_before(address, 0) == address@);
        }
        let field80 = match cursor.field::<[u8; 64], M>(reader, "Image", "lock") {
            Ok(value) => value,
            Err(error) => {
                proof {
                    lemma_events_chain(h0, g80, reader.history());
                    let cut = events_since(h0, g80).len() as int;
                    assert(Self::field_fails(address, 80, events_since(h0, reader.history()).skip(cut), error)) by {
                        reveal(Image::field_fails);
                    }
                    assert(Self::fails_at_field(address, events_since(h0, reader.history()), error));
                }
                return Err(error);
            },
        };
        let ghost g81 = reader.history();
        proof {
            lemma_prefix_trans(h0, g80, g81);
            assert(cursor.end() == Self::end_before(address, 81));
        }
        let part = ImagePart8 { field80 };
        let ghost histories = Seq::new(2, |i: int|
            if i == 0 {
                g80
            } else {
                g81
            });
        proof {
            assert forall|i: int| 0 <= i < 1 implies (#[trigger] histories[i]).is_prefix_of(histories[i + 1])
                && Self::part8_read(address, part, 80 + i, events_since(histories[i], histories[i + 1])) by {
                if i == 0 {
                    assert(Self::part8_read(address, part, 80, events_since(g80, g81))) by {
                        reveal(Image::part8_read);
                    }
                }
            }
        }
        Ok((part, Ghost(histories)))
    }

    /// When each part was read after the one before it, and the fields of
    /// `value` are those of the parts, what was read is `value`.
    proof fn lemma_parts_read(address: Address, value: Self, part0: ImagePart0, histories0: Seq<Seq<ReadEvent>>, part1: ImagePart1, histories1: Seq<Seq<ReadEvent>>, part2: ImagePart2, histories2: Seq<Seq<ReadEvent>>, part3: ImagePart3, histories3: Seq<Seq<ReadEvent>>, part4: ImagePart4, histories4: Seq<Seq<ReadEvent>>, part5: ImagePart5, histories5: Seq<Seq<ReadEvent>>, part6: ImagePart6, histories6: Seq<Seq<ReadEvent>>, part7: ImagePart7, histories7: Seq<Seq<ReadEvent>>, part8: ImagePart8, histories8: Seq<Seq<ReadEvent>>)
        requires
            histories0.len() == 11,
            forall|i: int|
                0 <= i < 10 ==> (#[trigger] histories0[i]).is_prefix_of(histories0[i + 1]) && Self::part0_read(
                    address,
                    part0,
                    0 + i,
                    events_since(histories0[i], histories0[i + 1]),
                ),
            value.ref_count == part0.field0,
            value.raw_data_handle == part0.field1,
            value.raw_data == part0.field2,
            value.raw_data_len == part0.field3,
            value.bitfields == part0.field4,
            value.name == part0.field5,
            value.assembly_name == part0.field6,
            value.module_name == part0.field7,
            value.version == part0.field8,
            value.md_version_major == part0.field9,
            histories1.len() == 11,
            histories1[0] == histories0[10],
            forall|i: int|
                0 <= i < 10 ==> (#[trigger] histories1[i]).is_prefix_of(histories1[i + 1]) && Self::part1_read(
                    address,
                    part1,
                    10 + i,
                    events_since(histories1[i], histories1[i + 1]),
                ),
            value.md_version_minor == part1.field10,
            value.guid == part1.field11,
            value.image_info == part1.field12,
            value.mempool == part1.field13,
            value.raw_metadata == part1.field14,
            value.heap_strings == part1.field15,
            value.heap_us == part1.field16,
            value.heap_blob == part1.field17,
            value.heap_guid == part1.field18,
            value.heap_tables == part1.field19,
            histories2.len() == 11,
            histories2[0] == histories1[10],
            forall|i: int|
                0 <= i < 10 ==> (#[trigger] histories2[i]).is_prefix_of(histories2[i + 1]) && Self::part2_read(
                    address,
                    part2,
                    20 + i,
                    events_since(histories2[i], histories2[i + 1]),
                ),
            value.heap_pdb == part2.field20,
            value.tables_base == part2.field21,
            value.referenced_tables == part2.field22,
            value.referenced_table_rows == part2.field23,
            value.tables == part2.field24,
            value.references == part2.field25,
            value.nreferences == part2.field26,
            value.modules == part2.field27,
            value.module_count == part2.field28,
            value.modules_loaded == part2.field29,
            histories3.len() == 11,
            histories3[0] == histories2[10],
            forall|i: int|
                0 <= i < 10 ==> (#[trigger] histories3[i]).is_prefix_of(histories3[i + 1]) && Self::part3_read(
                    address,
                    part3,
                    30 + i,
                    events_since(histories3[i], histories3[i + 1]),
                ),
            value.files == part3.field30,
            value.file_count == part3.field31,
            value.aot_module == part3.field32,
            value.aotid == part3.field33,
            value.assembly == part3.field34,
            value.method_cache == part3.field35,
            value.class_cache == part3.field36,
            value.methodref_cache == part3.field37,
            value.field_cache == part3.field38,
            value.typespec_cache == part3.field39,
            histories4.len() == 11,
            histories4[0] == histories3[10],
            forall|i: int|
                0 <= i < 10 ==> (#[trigger] histories4[i]).is_prefix_of(histories4[i + 1]) && Self::part4_read(
                    address,
                    part4,
                    40 + i,
                    events_since(histories4[i], histories4[i + 1]),
                ),
            value.memberref_signatures == part4.field40,
            value.method_signatures == part4.field41,
            value.name_cache == part4.field42,
            value.array_cache == part4.field43,
            value.ptr_cache == part4.field44,
            value.szarray_cache == part4.field45,
            value.szarray_cache_lock == part4.field46,
            value.native_func_wrapper_cache == part4.field47,
            value.runtime_invoke_vcall_cache == part4.field48,
            value.wrapper_param_names == part4.field49,
            histories5.len() == 11,
            histories5[0] == histories4[10],
            forall|i: int|
                0 <= i < 10 ==> (#[trigger] histories5[i]).is_prefix_of(histories5[i + 1]) && Self::part5_read(
                    address,
                    part5,
                    50 + i,
                    events_since(histories5[i], histories5[i + 1]),
                ),
            value.array_accessor_cache == part5.field50,
            value.ldfld_wrapper_cache == part5.field51,
            value.ldflda_wrapper_cache == part5.field52,
            value.stfld_wrapper_cache == part5.field53,
            value.isinst_cache == part5.field54,
            value.icall_wrapper_cache == part5.field55,
            value.castclass_cache == part5.field56,
            value.proxy_isinst_cache == part5.field57,
            value.rgctx_template_hash == part5.field58,
            value.property_hash == part5.field59,
            histories6.len() == 11,
            histories6[0] == histories5[10],
            forall|i: int|
                0 <= i < 10 ==> (#[trigger] histories6[i]).is_prefix_of(histories6[i + 1]) && Self::part6_read(
                    address,
                    part6,
                    60 + i,
                    events_since(histories6[i], histories6[i + 1]),
                ),
            value.reflection_info == part6.field60,
            value.user_info == part6.field61,
            value.dll_map == part6.field62,
            value.interface_bitset == part6.field63,
            value.reflection_info_unregister_classes == part6.field64,
            value.image_sets == part6.field65,
            value.wrapper_caches == part6.field66,
            value.var_cache_fast == part6.field67,
            value.mvar_cache_fast == part6.field68,
            value.var_cache_slow == part6.field69,
            histories7.len() == 11,
            histories7[0] == histories6[10],
            forall|i: int|
                0 <= i < 10 ==> (#[trigger] histories7[i]).is_prefix_of(histories7[i + 1]) && Self::part7_read(
                    address,
                    part7,
                    70 + i,
                    events_since(histories7[i], histories7[i + 1]),
                ),
            value.mvar_cache_slow == part7.field70,
            value.var_cache_constrained == part7.field71,
            value.mvar_cache_constrained == part7.field72,
            value.pinvoke_scopes == part7.field73,
            value.pinvoke_scope_filenames == part7.field74,
            value.loader == part7.field75,
            value.anonymous_generic_class_container == part7.field76,
            value.anonymous_generic_method_container == part7.field77,
            value.weak_fields_inited == part7.field78,
            value.weak_field_indexes == part7.field79,
            histories8.len() == 2,
            histories8[0] == histories7[10],
            forall|i: int|
                0 <= i < 1 ==> (#[trigger] histories8[i]).is_prefix_of(histories8[i + 1]) && Self::part8_read(
                    address,
                    part8,
                    80 + i,
                    events_since(histories8[i], histories8[i + 1]),
                ),
            value.lock == part8.field80,
        ensures
            Self::reads_fields(address, events_since(histories0[0], histories8[1]), value),
    {
        let histories = Seq::new(82, |i: int|
            if i < 10 {
                histories0[i - 0]
            } else if i < 20 {
                histories1[i - 10]
            } else if i < 30 {
                histories2[i - 20]
            } else if i < 40 {
                histories3[i - 30]
            } else if i < 50 {
                histories4[i - 40]
            } else if i < 60 {
                histories5[i - 50]
            } else if i < 70 {
                histories6[i - 60]
            } else if i < 80 {
                histories7[i - 70]
            } else {
                histories8[i - 80]
            });
        assert forall|i: int| 0 <= i < 81 implies (#[trigger] histories[i]).is_prefix_of(histories[i + 1])
            && Self::field_read(address, value, i, events_since(histories[i], histories[i + 1])) by {
            if i == 0 {
                assert(histories0[0].is_prefix_of(histories0[1]));
                assert(0 == 0 + 0int);
                assert(Self::part0_read(address, part0, 0, events_since(histories0[0], histories0[1])));
                assert(Self::field_read(address, value, 0, events_since(histories0[0], histories0[1]))) by {
                    reveal(Image::part0_read);
                    reveal(Image::field_read);
                }
            } else if i == 1 {
                assert(histories0[1].is_prefix_of(histories0[2]));
                assert(1 == 0 + 1int);
                assert(Self::part0_read(address, part0, 1, events_since(histories0[1], histories0[2])));
                assert(Self::field_read(address, value, 1, events_since(histories0[1], histories0[2]))) by {
                    reveal(Image::part0_read);
                    reveal(Image::field_read);
                }
            } else if i == 2 {
                assert(histories0[2].is_prefix_of(histories0[3]));
                assert(2 == 0 + 2int);
                assert(Self::part0_read(address, part0, 2, events_since(histories0[2], histories0[3])));
                assert(Self::field_read(address, value, 2, events_since(histories0[2], histories0[3]))) by {
                    reveal(Image::part0_read);
                    reveal(Image::field_read);
                }
            } else if i == 3 {
                assert(histories0[3].is_prefix_of(histories0[4]));
                assert(3 == 0 + 3int);
                assert(Self::part0_read(address, part0, 3, events_since(histories0[3], histories0[4])));
                assert(Self::field_read(address, value, 3, events_since(histories0[3], histories0[4]))) by {
                    reveal(Image::part0_read);
                    reveal(Image::field_read);
                }
            } else if i == 4 {
                assert(histories0[4].is_prefix_of(histories0[5]));
                assert(4 == 0 + 4int);
                assert(Self::part0_read(address, part0, 4, events_since(histories0[4], histories0[5])));
                assert(Self::field_read(address, value, 4, events_since(histories0[4], histories0[5]))) by {
                    reveal(Image::part0_read);
                    reveal(Image::field_read);
                }
            } else if i == 5 {
                assert(histories0[5].is_prefix_of(histories0[6]));
                assert(5 == 0 + 5int);
                assert(Self::part0_read(address, part0, 5, events_since(histories0[5], histories0[6])));
                assert(Self::field_read(address, value, 5, events_since(histories0[5], histories0[6]))) by {
                    reveal(Image::part0_read);
                    reveal(Image::field_read);
                }
            } else if i == 6 {
                assert(histories0[6].is_prefix_of(histories0[7]));
                assert(6 == 0 + 6int);
                assert(Self::part0_read(address, part0, 6, events_since(histories0[6], histories0[7])));
                assert(Self::field_read(address, value, 6, events_since(histories0[6], histories0[7]))) by {
                    reveal(Image::part0_read);
                    reveal(Image::field_read);
                }
            } else if i == 7 {
                assert(histories0[7].is_prefix_of(histories0[8]));
                assert(7 == 0 + 7int);
                assert(Self::part0_read(address, part0, 7, events_since(histories0[7], histories0[8])));
                assert(Self::field_read(address, value, 7, events_since(histories0[7], histories0[8]))) by {
                    reveal(Image::part0_read);
                    reveal(Image::field_read);
                }
            } else if i == 8 {
                assert(histories0[8].is_prefix_of(histories0[9]));
                assert(8 == 0 + 8int);
                assert(Self::part0_read(address, part0, 8, events_since(histories0[8], histories0[9])));
                assert(Self::field_read(address, value, 8, events_since(histories0[8], histories0[9]))) by {
                    reveal(Image::part0_read);
                    reveal(Image::field_read);
                }
            } else if i == 9 {
                assert(histories0[9].is_prefix_of(histories0[10]));
                assert(9 == 0 + 9int);
                assert(Self::part0_read(address, part0, 9, events_since(histories0[9], histories0[10])));
                assert(Self::field_read(address, value, 9, events_since(histories0[9], histories0[10]))) by {
                    reveal(Image::part0_read);
                    reveal(Image::field_read);
                }
            } else if i == 10 {
                assert(histories1[0].is_prefix_of(histories1[1]));
                assert(10 == 10 + 0int);
                assert(Self::part1_read(address, part1, 10, events_since(histories1[0], histories1[1])));
                assert(Self::field_read(address, value, 10, events_since(histories1[0], histories1[1]))) by {
                    reveal(Image::part1_read);
                    reveal(Image::field_read);
                }
            } else if i == 11 {
                assert(histories1[1].is_prefix_of(histories1[2]));
                assert(11 == 10 + 1int);
                assert(Self::part1_read(address, part1, 11, events_since(histories1[1], histories1[2])));
                assert(Self::field_read(address, value, 11, events_since(histories1[1], histories1[2]))) by {
                    reveal(Image::part1_read);
                    reveal(Image::field_read);
                }
            } else if i == 12 {
                assert(histories1[2].is_prefix_of(histories1[3]));
                assert(12 == 10 + 2int);
                assert(Self::part1_read(address, part1, 12, events_since(histories1[2], histories1[3])));
                assert(Self::field_read(address, value, 12, events_since(histories1[2], histories1[3]))) by {
                    reveal(Image::part1_read);
                    reveal(Image::field_read);
                }
            } else if i == 13 {
                assert(histories1[3].is_prefix_of(histories1[4]));
                assert(13 == 10 + 3int);
                assert(Self::part1_read(address, part1, 13, events_since(histories1[3], histories1[4])));
                assert(Self::field_read(address, value, 13, events_since(histories1[3], histories1[4]))) by {
                    reveal(Image::part1_read);
                    reveal(Image::field_read);
                }
            } else if i == 14 {
                assert(histories1[4].is_prefix_of(histories1[5]));
                assert(14 == 10 + 4int);
                assert(Self::part1_read(address, part1, 14, events_since(histories1[4], histories1[5])));
                assert(Self::field_read(address, value, 14, events_since(histories1[4], histories1[5]))) by {
                    reveal(Image::part1_read);
                    reveal(Image::field_read);
                }
            } else if i == 15 {
                assert(histories1[5].is_prefix_of(histories1[6]));
                assert(15 == 10 + 5int);
                assert(Self::part1_read(address, part1, 15, events_since(histories1[5], histories1[6])));
                assert(Self::field_read(address, value, 15, events_since(histories1[5], histories1[6]))) by {
                    reveal(Image::part1_read);
                    reveal(Image::field_read);
                }
            } else if i == 16 {
                assert(histories1[6].is_prefix_of(histories1[7]));
                assert(16 == 10 + 6int);
                assert(Self::part1_read(address, part1, 16, events_since(histories1[6], histories1[7])));
                assert(Self::field_read(address, value, 16, events_since(histories1[6], histories1[7]))) by {
                    reveal(Image::part1_read);
                    reveal(Image::field_read);
                }
            } else if i == 17 {
                assert(histories1[7].is_prefix_of(histories1[8]));
                assert(17 == 10 + 7int);
                assert(Self::part1_read(address, part1, 17, events_since(histories1[7], histories1[8])));
                assert(Self::field_read(address, value, 17, events_since(histories1[7], histories1[8]))) by {
                    reveal(Image::part1_read);
                    reveal(Image::field_read);
                }
            } else if i == 18 {
                assert(histories1[8].is_prefix_of(histories1[9]));
                assert(18 == 10 + 8int);
                assert(Self::part1_read(address, part1, 18, events_since(histories1[8], histories1[9])));
                assert(Self::field_read(address, value, 18, events_since(histories1[8], histories1[9]))) by {
                    reveal(Image::part1_read);
                    reveal(Image::field_read);
                }
            } else if i == 19 {
                assert(histories1[9].is_prefix_of(histories1[10]));
                assert(19 == 10 + 9int);
                assert(Self::part1_read(address, part1, 19, events_since(histories1[9], histories1[10])));
                assert(Self::field_read(address, value, 19, events_since(histories1[9], histories1[10]))) by {
                    reveal(Image::part1_read);
                    reveal(Image::field_read);
                }
            } else if i == 20 {
                assert(histories2[0].is_prefix_of(histories2[1]));
                assert(20 == 20 + 0int);
                assert(Self::part2_read(address, part2, 20, events_since(histories2[0], histories2[1])));
                assert(Self::field_read(address, value, 20, events_since(histories2[0], histories2[1]))) by {
                    reveal(Image::part2_read);
                    reveal(Image::field_read);
                }
            } else if i == 21 {
                assert(histories2[1].is_prefix_of(histories2[2]));
                assert(21 == 20 + 1int);
                assert(Self::part2_read(address, part2, 21, events_since(histories2[1], histories2[2])));
                assert(Self::field_read(address, value, 21, events_since(histories2[1], histories2[2]))) by {
                    reveal(Image::part2_read);
                    reveal(Image::field_read);
                }
            } else if i == 22 {
                assert(histories2[2].is_prefix_of(histories2[3]));
                assert(22 == 20 + 2int);
                assert(Self::part2_read(address, part2, 22, events_since(histories2[2], histories2[3])));
                assert(Self::field_read(address, value, 22, events_since(histories2[2], histories2[3]))) by {
                    reveal(Image::part2_read);
                    reveal(Image::field_read);
                }
            } else if i == 23 {
                assert(histories2[3].is_prefix_of(histories2[4]));
                assert(23 == 20 + 3int);
                assert(Self::part2_read(address, part2, 23, events_since(histories2[3], histories2[4])));
                assert(Self::field_read(address, value, 23, events_since(histories2[3], histories2[4]))) by {
                    reveal(Image::part2_read);
                    reveal(Image::field_read);
                }
            } else if i == 24 {
                assert(histories2[4].is_prefix_of(histories2[5]));
                assert(24 == 20 + 4int);
                assert(Self::part2_read(address, part2, 24, events_since(histories2[4], histories2[5])));
                assert(Self::field_read(address, value, 24, events_since(histories2[4], histories2[5]))) by {
                    reveal(Image::part2_read);
                    reveal(Image::field_read);
                }
            } else if i == 25 {
                assert(histories2[5].is_prefix_of(histories2[6]));
                assert(25 == 20 + 5int);
                assert(Self::part2_read(address, part2, 25, events_since(histories2[5], histories2[6])));
                assert(Self::field_read(address, value, 25, events_since(histories2[5], histories2[6]))) by {
                    reveal(Image::part2_read);
                    reveal(Image::field_read);
                }
            } else if i == 26 {
                assert(histories2[6].is_prefix_of(histories2[7]));
                assert(26 == 20 + 6int);
                assert(Self::part2_read(address, part2, 26, events_since(histories2[6], histories2[7])));
                assert(Self::field_read(address, value, 26, events_since(histories2[6], histories2[7]))) by {
                    reveal(Image::part2_read);
                    reveal(Image::field_read);
                }
            } else if i == 27 {
                assert(histories2[7].is_prefix_of(histories2[8]));
                assert(27 == 20 + 7int);
                assert(Self::part2_read(address, part2, 27, events_since(histories2[7], histories2[8])));
                assert(Self::field_read(address, value, 27, events_since(histories2[7], histories2[8]))) by {
                    reveal(Image::part2_read);
                    reveal(Image::field_read);
                }
            } else if i == 28 {
                assert(histories2[8].is_prefix_of(histories2[9]));
                assert(28 == 20 + 8int);
                assert(Self::part2_read(address, part2, 28, events_since(histories2[8], histories2[9])));
                assert(Self::field_read(address, value, 28, events_since(histories2[8], histories2[9]))) by {
                    reveal(Image::part2_read);
                    reveal(Image::field_read);
                }
            } else if i == 29 {
                assert(histories2[9].is_prefix_of(histories2[10]));
                assert(29 == 20 + 9int);
                assert(Self::part2_read(address, part2, 29, events_since(histories2[9], histories2[10])));
                assert(Self::field_read(address, value, 29, events_since(histories2[9], histories2[10]))) by {
                    reveal(Image::part2_read);
                    reveal(Image::field_read);
                }
            } else if i == 30 {
                assert(histories3[0].is_prefix_of(histories3[1]));
                assert(30 == 30 + 0int);
                assert(Self::part3_read(address, part3, 30, events_since(histories3[0], histories3[1])));
                assert(Self::field_read(address, value, 30, events_since(histories3[0], histories3[1]))) by {
                    reveal(Image::part3_read);
                    reveal(Image::field_read);
                }
            } else if i == 31 {
                assert(histories3[1].is_prefix_of(histories3[2]));
                assert(31 == 30 + 1int);
                assert(Self::part3_read(address, part3, 31, events_since(histories3[1], histories3[2])));
                assert(Self::field_read(address, value, 31, events_since(histories3[1], histories3[2]))) by {
                    reveal(Image::part3_read);
                    reveal(Image::field_read);
                }
            } else if i == 32 {
                assert(histories3[2].is_prefix_of(histories3[3]));
                assert(32 == 30 + 2int);
                assert(Self::part3_read(address, part3, 32, events_since(histories3[2], histories3[3])));
                assert(Self::field_read(address, value, 32, events_since(histories3[2], histories3[3]))) by {
                    reveal(Image::part3_read);
                    reveal(Image::field_read);
                }
            } else if i == 33 {
                assert(histories3[3].is_prefix_of(histories3[4]));
                assert(33 == 30 + 3int);
                assert(Self::part3_read(address, part3, 33, events_since(histories3[3], histories3[4])));
                assert(Self::field_read(address, value, 33, events_since(histories3[3], histories3[4]))) by {
                    reveal(Image::part3_read);
                    reveal(Image::field_read);
                }
            } else if i == 34 {
                assert(histories3[4].is_prefix_of(histories3[5]));
                assert(34 == 30 + 4int);
                assert(Self::part3_read(address, part3, 34, events_since(histories3[4], histories3[5])));
                assert(Self::field_read(address, value, 34, events_since(histories3[4], histories3[5]))) by {
                    reveal(Image::part3_read);
                    reveal(Image::field_read);
                }
            } else if i == 35 {
                assert(histories3[5].is_prefix_of(histories3[6]));
                assert(35 == 30 + 5int);
                assert(Self::part3_read(address, part3, 35, events_since(histories3[5], histories3[6])));
                assert(Self::field_read(address, value, 35, events_since(histories3[5], histories3[6]))) by {
                    reveal(Image::part3_read);
                    reveal(Image::field_read);
                }
            } else if i == 36 {
                assert(histories3[6].is_prefix_of(histories3[7]));
                assert(36 == 30 + 6int);
                assert(Self::part3_read(address, part3, 36, events_since(histories3[6], histories3[7])));
                assert(Self::field_read(address, value, 36, events_since(histories3[6], histories3[7]))) by {
                    reveal(Image::part3_read);
                    reveal(Image::field_read);
                }
            } else if i == 37 {
                assert(histories3[7].is_prefix_of(histories3[8]));
                assert(37 == 30 + 7int);
                assert(Self::part3_read(address, part3, 37, events_since(histories3[7], histories3[8])));
                assert(Self::field_read(address, value, 37, events_since(histories3[7], histories3[8]))) by {
                    reveal(Image::part3_read);
                    reveal(Image::field_read);
                }
            } else if i == 38 {
                assert(histories3[8].is_prefix_of(histories3[9]));
                assert(38 == 30 + 8int);
                assert(Self::part3_read(address, part3, 38, events_since(histories3[8], histories3[9])));
                assert(Self::field_read(address, value, 38, events_since(histories3[8], histories3[9]))) by {
                    reveal(Image::part3_read);
                    reveal(Image::field_read);
                }
            } else if i == 39 {
                assert(histories3[9].is_prefix_of(histories3[10]));
                assert(39 == 30 + 9int);
                assert(Self::part3_read(address, part3, 39, events_since(histories3[9], histories3[10])));
                assert(Self::field_read(address, value, 39, events_since(histories3[9], histories3[10]))) by {
                    reveal(Image::part3_read);
                    reveal(Image::field_read);
                }
            } else if i == 40 {
                assert(histories4[0].is_prefix_of(histories4[1]));
                assert(40 == 40 + 0int);
                assert(Self::part4_read(address, part4, 40, events_since(histories4[0], histories4[1])));
                assert(Self::field_read(address, value, 40, events_since(histories4[0], histories4[1]))) by {
                    reveal(Image::part4_read);
                    reveal(Image::field_read);
                }
            } else if i == 41 {
                assert(histories4[1].is_prefix_of(histories4[2]));
                assert(41 == 40 + 1int);
                assert(Self::part4_read(address, part4, 41, events_since(histories4[1], histories4[2])));
                assert(Self::field_read(address, value, 41, events_since(histories4[1], histories4[2]))) by {
                    reveal(Image::part4_read);
                    reveal(Image::field_read);
                }
            } else if i == 42 {
                assert(histories4[2].is_prefix_of(histories4[3]));
                assert(42 == 40 + 2int);
                assert(Self::part4_read(address, part4, 42, events_since(histories4[2], histories4[3])));
                assert(Self::field_read(address, value, 42, events_since(histories4[2], histories4[3]))) by {
                    reveal(Image::part4_read);
                    reveal(Image::field_read);
                }
            } else if i == 43 {
                assert(histories4[3].is_prefix_of(histories4[4]));
                assert(43 == 40 + 3int);
                assert(Self::part4_read(address, part4, 43, events_since(histories4[3], histories4[4])));
                assert(Self::field_read(address, value, 43, events_since(histories4[3], histories4[4]))) by {
                    reveal(Image::part4_read);
                    reveal(Image::field_read);
                }
            } else if i == 44 {
                assert(histories4[4].is_prefix_of(histories4[5]));
                assert(44 == 40 + 4int);
                assert(Self::part4_read(address, part4, 44, events_since(histories4[4], histories4[5])));
                assert(Self::field_read(address, value, 44, events_since(histories4[4], histories4[5]))) by {
                    reveal(Image::part4_read);
                    reveal(Image::field_read);
                }
            } else if i == 45 {
                assert(histories4[5].is_prefix_of(histories4[6]));
                assert(45 == 40 + 5int);
                assert(Self::part4_read(address, part4, 45, events_since(histories4[5], histories4[6])));
                assert(Self::field_read(address, value, 45, events_since(histories4[5], histories4[6]))) by {
                    reveal(Image::part4_read);
                    reveal(Image::field_read);
                }
            } else if i == 46 {
                assert(histories4[6].is_prefix_of(histories4[7]));
                assert(46 == 40 + 6int);
                assert(Self::part4_read(address, part4, 46, events_since(histories4[6], histories4[7])));
                assert(Self::field_read(address, value, 46, events_since(histories4[6], histories4[7]))) by {
                    reveal(Image::part4_read);
                    reveal(Image::field_read);
                }
            } else if i == 47 {
                assert(histories4[7].is_prefix_of(histories4[8]));
                assert(47 == 40 + 7int);
                assert(Self::part4_read(address, part4, 47, events_since(histories4[7], histories4[8])));
                assert(Self::field_read(address, value, 47, events_since(histories4[7], histories4[8]))) by {
                    reveal(Image::part4_read);
                    reveal(Image::field_read);
                }
            } else if i == 48 {
                assert(histories4[8].is_prefix_of(histories4[9]));
                assert(48 == 40 + 8int);
                assert(Self::part4_read(address, part4, 48, events_since(histories4[8], histories4[9])));
                assert(Self::field_read(address, value, 48, events_since(histories4[8], histories4[9]))) by {
                    reveal(Image::part4_read);
                    reveal(Image::field_read);
                }
            } else if i == 49 {
                assert(histories4[9].is_prefix_of(histories4[10]));
                assert(49 == 40 + 9int);
                assert(Self::part4_read(address, part4, 49, events_since(histories4[9], histories4[10])));
                assert(Self::field_read(address, value, 49, events_since(histories4[9], histories4[10]))) by {
                    reveal(Image::part4_read);
                    reveal(Image::field_read);
                }
            } else if i == 50 {
                assert(histories5[0].is_prefix_of(histories5[1]));
                assert(50 == 50 + 0int);
                assert(Self::part5_read(address, part5, 50, events_since(histories5[0], histories5[1])));
                assert(Self::field_read(address, value, 50, events_since(histories5[0], histories5[1]))) by {
                    reveal(Image::part5_read);
                    reveal(Image::field_read);
                }
            } else if i == 51 {
                assert(histories5[1].is_prefix_of(histories5[2]));
                assert(51 == 50 + 1int);
                assert(Self::part5_read(address, part5, 51, events_since(histories5[1], histories5[2])));
                assert(Self::field_read(address, value, 51, events_since(histories5[1], histories5[2]))) by {
                    reveal(Image::part5_read);
                    reveal(Image::field_read);
                }
            } else if i == 52 {
                assert(histories5[2].is_prefix_of(histories5[3]));
                assert(52 == 50 + 2int);
                assert(Self::part5_read(address, part5, 52, events_since(histories5[2], histories5[3])));
                assert(Self::field_read(address, value, 52, events_since(histories5[2], histories5[3]))) by {
                    reveal(Image::part5_read);
                    reveal(Image::field_read);
                }
            } else if i == 53 {
                assert(histories5[3].is_prefix_of(histories5[4]));
                assert(53 == 50 + 3int);
                assert(Self::part5_read(address, part5, 53, events_since(histories5[3], histories5[4])));
                assert(Self::field_read(address, value, 53, events_since(histories5[3], histories5[4]))) by {
                    reveal(Image::part5_read);
                    reveal(Image::field_read);
                }
            } else if i == 54 {
                assert(histories5[4].is_prefix_of(histories5[5]));
                assert(54 == 50 + 4int);
                assert(Self::part5_read(address, part5, 54, events_since(histories5[4], histories5[5])));
                assert(Self::field_read(address, value, 54, events_since(histories5[4], histories5[5]))) by {
                    reveal(Image::part5_read);
                    reveal(Image::field_read);
                }
            } else if i == 55 {
                assert(histories5[5].is_prefix_of(histories5[6]));
                assert(55 == 50 + 5int);
                assert(Self::part5_read(address, part5, 55, events_since(histories5[5], histories5[6])));
                assert(Self::field_read(address, value, 55, events_since(histories5[5], histories5[6]))) by {
                    reveal(Image::part5_read);
                    reveal(Image::field_read);
                }
            } else if i == 56 {
                assert(histories5[6].is_prefix_of(histories5[7]));
                assert(56 == 50 + 6int);
                assert(Self::part5_read(address, part5, 56, events_since(histories5[6], histories5[7])));
                assert(Self::field_read(address, value, 56, events_since(histories5[6], histories5[7]))) by {
                    reveal(Image::part5_read);
                    reveal(Image::field_read);
                }
            } else if i == 57 {
                assert(histories5[7].is_prefix_of(histories5[8]));
                assert(57 == 50 + 7int);
                assert(Self::part5_read(address, part5, 57, events_since(histories5[7], histories5[8])));
                assert(Self::field_read(address, value, 57, events_since(histories5[7], histories5[8]))) by {
                    reveal(Image::part5_read);
                    reveal(Image::field_read);
                }
            } else if i == 58 {
                assert(histories5[8].is_prefix_of(histories5[9]));
                assert(58 == 50 + 8int);
                assert(Self::part5_read(address, part5, 58, events_since(histories5[8], histories5[9])));
                assert(Self::field_read(address, value, 58, events_since(histories5[8], histories5[9]))) by {
                    reveal(Image::part5_read);
                    reveal(Image::field_read);
                }
            } else if i == 59 {
                assert(histories5[9].is_prefix_of(histories5[10]));
                assert(59 == 50 + 9int);
                assert(Self::part5_read(address, part5, 59, events_since(histories5[9], histories5[10])));
                assert(Self::field_read(address, value, 59, events_since(histories5[9], histories5[10]))) by {
                    reveal(Image::part5_read);
                    reveal(Image::field_read);
                }
            } else if i == 60 {
                assert(histories6[0].is_prefix_of(histories6[1]));
                assert(60 == 60 + 0int);
                assert(Self::part6_read(address, part6, 60, events_since(histories6[0], histories6[1])));
                assert(Self::field_read(address, value, 60, events_since(histories6[0], histories6[1]))) by {
                    reveal(Image::part6_read);
                    reveal(Image::field_read);
                }
            } else if i == 61 {
                assert(histories6[1].is_prefix_of(histories6[2]));
                assert(61 == 60 + 1int);
                assert(Self::part6_read(address, part6, 61, events_since(histories6[1], histories6[2])));
                assert(Self::field_read(address, value, 61, events_since(histories6[1], histories6[2]))) by {
                    reveal(Image::part6_read);
                    reveal(Image::field_read);
                }
            } else if i == 62 {
                assert(histories6[2].is_prefix_of(histories6[3]));
                assert(62 == 60 + 2int);
                assert(Self::part6_read(address, part6, 62, events_since(histories6[2], histories6[3])));
                assert(Self::field_read(address, value, 62, events_since(histories6[2], histories6[3]))) by {
                    reveal(Image::part6_read);
                    reveal(Image::field_read);
                }
            } else if i == 63 {
                assert(histories6[3].is_prefix_of(histories6[4]));
                assert(63 == 60 + 3int);
                assert(Self::part6_read(address, part6, 63, events_since(histories6[3], histories6[4])));
                assert(Self::field_read(address, value, 63, events_since(histories6[3], histories6[4]))) by {
                    reveal(Image::part6_read);
                    reveal(Image::field_read);
                }
            } else if i == 64 {
                assert(histories6[4].is_prefix_of(histories6[5]));
                assert(64 == 60 + 4int);
                assert(Self::part6_read(address, part6, 64, events_since(histories6[4], histories6[5])));
                assert(Self::field_read(address, value, 64, events_since(histories6[4], histories6[5]))) by {
                    reveal(Image::part6_read);
                    reveal(Image::field_read);
                }
            } else if i == 65 {
                assert(histories6[5].is_prefix_of(histories6[6]));
                assert(65 == 60 + 5int);
                assert(Self::part6_read(address, part6, 65, events_since(histories6[5], histories6[6])));
                assert(Self::field_read(address, value, 65, events_since(histories6[5], histories6[6]))) by {
                    reveal(Image::part6_read);
                    reveal(Image::field_read);
                }
            } else if i == 66 {
                assert(histories6[6].is_prefix_of(histories6[7]));
                assert(66 == 60 + 6int);
                assert(Self::part6_read(address, part6, 66, events_since(histories6[6], histories6[7])));
                assert(Self::field_read(address, value, 66, events_since(histories6[6], histories6[7]))) by {
                    reveal(Image::part6_read);
                    reveal(Image::field_read);
                }
            } else if i == 67 {
                assert(histories6[7].is_prefix_of(histories6[8]));
                assert(67 == 60 + 7int);
                assert(Self::part6_read(address, part6, 67, events_since(histories6[7], histories6[8])));
                assert(Self::field_read(address, value, 67, events_since(histories6[7], histories6[8]))) by {
                    reveal(Image::part6_read);
                    reveal(Image::field_read);
                }
            } else if i == 68 {
                assert(histories6[8].is_prefix_of(histories6[9]));
                assert(68 == 60 + 8int);
                assert(Self::part6_read(address, part6, 68, events_since(histories6[8], histories6[9])));
                assert(Self::field_read(address, value, 68, events_since(histories6[8], histories6[9]))) by {
                    reveal(Image::part6_read);
                    reveal(Image::field_read);
                }
            } else if i == 69 {
                assert(histories6[9].is_prefix_of(histories6[10]));
                assert(69 == 60 + 9int);
                assert(Self::part6_read(address, part6, 69, events_since(histories6[9], histories6[10])));
                assert(Self::field_read(address, value, 69, events_since(histories6[9], histories6[10]))) by {
                    reveal(Image::part6_read);
                    reveal(Image::field_read);
                }
            } else if i == 70 {
                assert(histories7[0].is_prefix_of(histories7[1]));
                assert(70 == 70 + 0int);
                assert(Self::part7_read(address, part7, 70, events_since(histories7[0], histories7[1])));
                assert(Self::field_read(address, value, 70, events_since(histories7[0], histories7[1]))) by {
                    reveal(Image::part7_read);
                    reveal(Image::field_read);
                }
            } else if i == 71 {
                assert(histories7[1].is_prefix_of(histories7[2]));
                assert(71 == 70 + 1int);
                assert(Self::part7_read(address, part7, 71, events_since(histories7[1], histories7[2])));
                assert(Self::field_read(address, value, 71, events_since(histories7[1], histories7[2]))) by {
                    reveal(Image::part7_read);
                    reveal(Image::field_read);
                }
            } else if i == 72 {
                assert(histories7[2].is_prefix_of(histories7[3]));
                assert(72 == 70 + 2int);
                assert(Self::part7_read(address, part7, 72, events_since(histories7[2], histories7[3])));
                assert(Self::field_read(address, value, 72, events_since(histories7[2], histories7[3]))) by {
                    reveal(Image::part7_read);
                    reveal(Image::field_read);
                }
            } else if i == 73 {
                assert(histories7[3].is_prefix_of(histories7[4]));
                assert(73 == 70 + 3int);
                assert(Self::part7_read(address, part7, 73, events_since(histories7[3], histories7[4])));
                assert(Self::field_read(address, value, 73, events_since(histories7[3], histories7[4]))) by {
                    reveal(Image::part7_read);
                    reveal(Image::field_read);
                }
            } else if i == 74 {
                assert(histories7[4].is_prefix_of(histories7[5]));
                assert(74 == 70 + 4int);
                assert(Self::part7_read(address, part7, 74, events_since(histories7[4], histories7[5])));
                assert(Self::field_read(address, value, 74, events_since(histories7[4], histories7[5]))) by {
                    reveal(Image::part7_read);
                    reveal(Image::field_read);
                }
            } else if i == 75 {
                assert(histories7[5].is_prefix_of(histories7[6]));
                assert(75 == 70 + 5int);
                assert(Self::part7_read(address, part7, 75, events_since(histories7[5], histories7[6])));
                assert(Self::field_read(address, value, 75, events_since(histories7[5], histories7[6]))) by {
                    reveal(Image::part7_read);
                    reveal(Image::field_read);
                }
            } else if i == 76 {
                assert(histories7[6].is_prefix_of(histories7[7]));
                assert(76 == 70 + 6int);
                assert(Self::part7_read(address, part7, 76, events_since(histories7[6], histories7[7])));
                assert(Self::field_read(address, value, 76, events_since(histories7[6], histories7[7]))) by {
                    reveal(Image::part7_read);
                    reveal(Image::field_read);
                }
            } else if i == 77 {
                assert(histories7[7].is_prefix_of(histories7[8]));
                assert(77 == 70 + 7int);
                assert(Self::part7_read(address, part7, 77, events_since(histories7[7], histories7[8])));
                assert(Self::field_read(address, value, 77, events_since(histories7[7], histories7[8]))) by {
                    reveal(Image::part7_read);
                    reveal(Image::field_read);
                }
            } else if i == 78 {
                assert(histories7[8].is_prefix_of(histories7[9]));
                assert(78 == 70 + 8int);
                assert(Self::part7_read(address, part7, 78, events_since(histories7[8], histories7[9])));
                assert(Self::field_read(address, value, 78, events_since(histories7[8], histories7[9]))) by {
                    reveal(Image::part7_read);
                    reveal(Image::field_read);
                }
            } else if i == 79 {
                assert(histories7[9].is_prefix_of(histories7[10]));
                assert(79 == 70 + 9int);
                assert(Self::part7_read(address, part7, 79, events_since(histories7[9], histories7[10])));
                assert(Self::field_read(address, value, 79, events_since(histories7[9], histories7[10]))) by {
                    reveal(Image::part7_read);
                    reveal(Image::field_read);
                }
            } else if i == 80 {
                assert(histories8[0].is_prefix_of(histories8[1]));
                assert(80 == 80 + 0int);
                assert(Self::part8_read(address, part8, 80, events_since(histories8[0], histories8[1])));
                assert(Self::field_read(address, value, 80, events_since(histories8[0], histories8[1]))) by {
                    reveal(Image::part8_read);
                    reveal(Image::field_read);
                }
            }
        }
        Self::lemma_reads_fields(address, value, histories);
    }
}

impl Deserialize for Image {
    const NUM_BYTES: usize = 1880;

    const ALIGNMENT: usize = 8;

    open spec fn layout() -> FieldLayout {
        FieldLayout { num_bytes: 1880, alignment: 8 }
    }

    proof fn lemma_layout() {
        lemma_small_powers_of_two();
    }

    /// The fields are read in declaration order, each at the end of the one
    /// before it rounded up to its own alignment. The first field that cannot
    /// be read ends the reading; its error is the outcome, wrapped in a
    /// context that names the field.
    open spec fn decodes(address: Address, events: Seq<ReadEvent>, outcome: Result<Self, Error>) -> bool {
        match outcome {
            Ok(value) => Self::reads_fields(address, events, value),
            Err(error) => Self::fails_at_field(address, events, error),
        }
    }

    fn deserialize<M: MemoryReader>(reader: &mut M, address: Address) -> (r: Result<Self, Error>) {
        let ghost h0 = reader.history();
        let mut cursor = FieldCursor::new(address);
        proof {
            Self::lemma_fields();
            lemma_no_events(h0);
            assert(Self::end_before(address, 0) == address@);
        }
        let (part0, Ghost(histories0)) = match Self::read_part0(reader, &mut cursor, Ghost(address)) {
            Ok(read) => read,
            Err(error) => {
                proof {
                    lemma_fails_later(h0, h0, reader.history());
                    let before = events_since(h0, h0).len() as int;
                    let (index, cut) = choose|index: int, cut: int|
                        0 <= index < 81 && 0 <= cut <= events_since(h0, reader.history()).len() && #[trigger] Self::field_fails(
                            address,
                            index,
                            events_since(h0, reader.history()).skip(cut),
                            error,
                        );
                    assert(events_since(h0, reader.history()).skip(before + cut) =~= events_since(h0, reader.history()).skip(cut));
                    assert(Self::field_fails(address, index, events_since(h0, reader.history()).skip(before + cut), error));
                    assert(Self::fails_at_field(address, events_since(h0, reader.history()), error));
                }
                return Err(error);
            },
        };
        let ghost h1 = reader.history();
        proof {
            lemma_prefix_trans(h0, h0, h1);
        }
        let (part1, Ghost(histories1)) = match Self::read_part1(reader, &mut cursor, Ghost(address)) {
            Ok(read) => read,
            Err(error) => {
                proof {
                    lemma_fails_later(h0, h1, reader.history());
                    let before = events_since(h0, h1).len() as int;
                    let (index, cut) = choose|index: int, cut: int|
                        0 <= index < 81 && 0 <= cut <= events_since(h1, reader.history()).len() && #[trigger] Self::field_fails(
                            address,
                            index,
                            events_since(h1, reader.history()).skip(cut),
                            error,
                        );
                    assert(events_since(h0, reader.history()).skip(before + cut) =~= events_since(h1, reader.history()).skip(cut));
                    assert(Self::field_fails(address, index, events_since(h0, reader.history()).skip(before + cut), error));
                    assert(Self::fails_at_field(address, events_since(h0, reader.history()), error));
                }
                return Err(error);
            },
        };
        let ghost h2 = reader.history();
        proof {
            lemma_prefix_trans(h0, h1, h2);
        }
        let (part2, Ghost(histories2)) = match Self::read_part2(reader, &mut cursor, Ghost(address)) {
            Ok(read) => read,
            Err(error) => {
                proof {
                    lemma_fails_later(h0, h2, reader.history());
                    let before = events_since(h0, h2).len() as int;
                    let (index, cut) = choose|index: int, cut: int|
                        0 <= index < 81 && 0 <= cut <= events_since(h2, reader.history()).len() && #[trigger] Self::field_fails(
                            address,
                            index,
                            events_since(h2, reader.history()).skip(cut),
                            error,
                        );
                    assert(events_since(h0, reader.history()).skip(before + cut) =~= events_since(h2, reader.history()).skip(cut));
                    assert(Self::field_fails(address, index, events_since(h0, reader.history()).skip(before + cut), error));
                    assert(Self::fails_at_field(address, events_since(h0, reader.history()), error));
                }
                return Err(error);
            },
        };
        let ghost h3 = reader.history();
        proof {
            lemma_prefix_trans(h0, h2, h3);
        }
        let (part3, Ghost(histories3)) = match Self::read_part3(reader, &mut cursor, Ghost(address)) {
            Ok(read) => read,
            Err(error) => {
                proof {
                    lemma_fails_later(h0, h3, reader.history());
                    let before = events_since(h0, h3).len() as int;
                    let (index, cut) = choose|index: int, cut: int|
                        0 <= index < 81 && 0 <= cut <= events_since(h3, reader.history()).len() && #[trigger] Self::field_fails(
                            address,
                            index,
                            events_since(h3, reader.history()).skip(cut),
                            error,
                        );
                    assert(events_since(h0, reader.history()).skip(before + cut) =~= events_since(h3, reader.history()).skip(cut));
                    assert(Self::field_fails(address, index, events_since(h0, reader.history()).skip(before + cut), error));
                    assert(Self::fails_at_field(address, events_since(h0, reader.history()), error));
                }
                return Err(error);
            },
        };
        let ghost h4 = reader.history();
        proof {
            lemma_prefix_trans(h0, h3, h4);
        }
        let (part4, Ghost(histories4)) = match Self::read_part4(reader, &mut cursor, Ghost(address)) {
            Ok(read) => read,
            Err(error) => {
                proof {
                    lemma_fails_later(h0, h4, reader.history());
                    let before = events_since(h0, h4).len() as int;
                    let (index, cut) = choose|index: int, cut: int|
                        0 <= index < 81 && 0 <= cut <= events_since(h4, reader.history()).len() && #[trigger] Self::field_fails(
                            address,
                            index,
                            events_since(h4, reader.history()).skip(cut),
                            error,
                        );
                    assert(events_since(h0, reader.history()).skip(before + cut) =~= events_since(h4, reader.history()).skip(cut));
                    assert(Self::field_fails(address, index, events_since(h0, reader.history()).skip(before + cut), error));
                    assert(Self::fails_at_field(address, events_since(h0, reader.history()), error));
                }
                return Err(error);
            },
        };
        let ghost h5 = reader.history();
        proof {
            lemma_prefix_trans(h0, h4, h5);
        }
        let (part5, Ghost(histories5)) = match Self::read_part5(reader, &mut cursor, Ghost(address)) {
            Ok(read) => read,
            Err(error) => {
                proof {
                    lemma_fails_later(h0, h5, reader.history());
                    let before = events_since(h0, h5).len() as int;
                    let (index, cut) = choose|index: int, cut: int|
                        0 <= index < 81 && 0 <= cut <= events_since(h5, reader.history()).len() && #[trigger] Self::field_fails(
                            address,
                            index,
                            events_since(h5, reader.history()).skip(cut),
                            error,
                        );
                    assert(events_since(h0, reader.history()).skip(before + cut) =~= events_since(h5, reader.history()).skip(cut));
                    assert(Self::field_fails(address, index, events_since(h0, reader.history()).skip(before + cut), error));
                    assert(Self::fails_at_field(address, events_since(h0, reader.history()), error));
                }
                return Err(error);
            },
        };
        let ghost h6 = reader.history();
        proof {
            lemma_prefix_trans(h0, h5, h6);
        }
        let (part6, Ghost(histories6)) = match Self::read_part6(reader, &mut cursor, Ghost(address)) {
            Ok(read) => read,
            Err(error) => {
                proof {
                    lemma_fails_later(h0, h6, reader.history());
                    let before = events_since(h0, h6).len() as int;
                    let (index, cut) = choose|index: int, cut: int|
                        0 <= index < 81 && 0 <= cut <= events_since(h6, reader.history()).len() && #[trigger] Self::field_fails(
                            address,
                            index,
                            events_since(h6, reader.history()).skip(cut),
                            error,
                        );
                    assert(events_since(h0, reader.history()).skip(before + cut) =~= events_since(h6, reader.history()).skip(cut));
                    assert(Self::field_fails(address, index, events_since(h0, reader.history()).skip(before + cut), error));
                    assert(Self::fails_at_field(address, events_since(h0, reader.history()), error));
                }
                return Err(error);
            },
        };
        let ghost h7 = reader.history();
        proof {
            lemma_prefix_trans(h0, h6, h7);
        }
        let (part7, Ghost(histories7)) = match Self::read_part7(reader, &mut cursor, Ghost(address)) {
            Ok(read) => read,
            Err(error) => {
                proof {
                    lemma_fails_later(h0, h7, reader.history());
                    let before = events_since(h0, h7).len() as int;
                    let (index, cut) = choose|index: int, cut: int|
                        0 <= index < 81 && 0 <= cut <= events_since(h7, reader.history()).len() && #[trigger] Self::field_fails(
                            address,
                            index,
                            events_since(h7, reader.history()).skip(cut),
                            error,
                        );
                    assert(events_since(h0, reader.history()).skip(before + cut) =~= events_since(h7, reader.history()).skip(cut));
                    assert(Self::field_fails(address, index, events_since(h0, reader.history()).skip(before + cut), error));
                    assert(Self::fails_at_field(address, events_since(h0, reader.history()), error));
                }
                return Err(error);
            },
        };
        let ghost h8 = reader.history();
        proof {
            lemma_prefix_trans(h0, h7, h8);
        }
        let (part8, Ghost(histories8)) = match Self::read_part8(reader, &mut cursor, Ghost(address)) {
            Ok(read) => read,
            Err(error) => {
                proof {
                    lemma_fails_later(h0, h8, reader.history());
                    let before = events_since(h0, h8).len() as int;
                    let (index, cut) = choose|index: int, cut: int|
                        0 <= index < 81 && 0 <= cut <= events_since(h8, reader.history()).len() && #[trigger] Self::field_fails(
                            address,
                            index,
                            events_since(h8, reader.history()).skip(cut),
                            error,
                        );
                    assert(events_since(h0, reader.history()).skip(before + cut) =~= events_since(h8, reader.history()).skip(cut));
                    assert(Self::field_fails(address, index, events_since(h0, reader.history()).skip(before + cut), error));
                    assert(Self::fails_at_field(address, events_since(h0, reader.history()), error));
                }
                return Err(error);
            },
        };
        let ghost h9 = reader.history();
        proof {
            lemma_prefix_trans(h0, h8, h9);
        }
        let value = Self {
            ref_count: part0.field0,
            raw_data_handle: part0.field1,
            raw_data: part0.field2,
            raw_data_len: part0.field3,
            bitfields: part0.field4,
            name: part0.field5,
            assembly_name: part0.field6,
            module_name: part0.field7,
            version: part0.field8,
            md_version_major: part0.field9,
            md_version_minor: part1.field10,
            guid: part1.field11,
            image_info: part1.field12,
            mempool: part1.field13,
            raw_metadata: part1.field14,
            heap_strings: part1.field15,
            heap_us: part1.field16,
            heap_blob: part1.field17,
            heap_guid: part1.field18,
            heap_tables: part1.field19,
            heap_pdb: part2.field20,
            tables_base: part2.field21,
            referenced_tables: part2.field22,
            referenced_table_rows: part2.field23,
            tables: part2.field24,
            references: part2.field25,
            nreferences: part2.field26,
            modules: part2.field27,
            module_count: part2.field28,
            modules_loaded: part2.field29,
            files: part3.field30,
            file_count: part3.field31,
            aot_module: part3.field32,
            aotid: part3.field33,
            assembly: part3.field34,
            method_cache: part3.field35,
            class_cache: part3.field36,
            methodref_cache: part3.field37,
            field_cache: part3.field38,
            typespec_cache: part3.field39,
            memberref_signatures: part4.field40,
            method_signatures: part4.field41,
            name_cache: part4.field42,
            array_cache: part4.field43,
            ptr_cache: part4.field44,
            szarray_cache: part4.field45,
            szarray_cache_lock: part4.field46,
            native_func_wrapper_cache: part4.field47,
            runtime_invoke_vcall_cache: part4.field48,
            wrapper_param_names: part4.field49,
            array_accessor_cache: part5.field50,
            ldfld_wrapper_cache: part5.field51,
            ldflda_wrapper_cache: part5.field52,
            stfld_wrapper_cache: part5.field53,
            isinst_cache: part5.field54,
            icall_wrapper_cache: part5.field55,
            castclass_cache: part5.field56,
            proxy_isinst_cache: part5.field57,
            rgctx_template_hash: part5.field58,
            property_hash: part5.field59,
            reflection_info: part6.field60,
            user_info: part6.field61,
            dll_map: part6.field62,
            interface_bitset: part6.field63,
            reflection_info_unregister_classes: part6.field64,
            image_sets: part6.field65,
            wrapper_caches: part6.field66,
            var_cache_fast: part6.field67,
            mvar_cache_fast: part6.field68,
            var_cache_slow: part6.field69,
            mvar_cache_slow: part7.field70,
            var_cache_constrained: part7.field71,
            mvar_cache_constrained: part7.field72,
            pinvoke_scopes: part7.field73,
            pinvoke_scope_filenames: part7.field74,
            loader: part7.field75,
            anonymous_generic_class_container: part7.field76,
            anonymous_generic_method_container: part7.field77,
            weak_fields_inited: part7.field78,
            weak_field_indexes: part7.field79,
            lock: part8.field80,
        };
        proof {
            Self::lemma_parts_read(address, value, part0, histories0, part1, histories1, part2, histories2, part3, histories3, part4, histories4, part5, histories5, part6, histories6, part7, histories7, part8, histories8);
        }
        Ok(value)
    }
}

impl Image {
    /// Whether the image's data is a buffer that was handed in.
    #[must_use]
    pub fn raw_buffer_used(&self) -> (r: bool)
        ensures
            r <==> self.bitfields@[0] & 0x80 == 0x80,
    {
        has_flag(self.bitfields[0], 0b10000000)
    }

    /// Whether the image's data was allocated for it.
    #[must_use]
    pub fn raw_data_allocated(&self) -> (r: bool)
        ensures
            r <==> self.bitfields@[0] & 0x40 == 0x40,
    {
        has_flag(self.bitfields[0], 0b01000000)
    }

    /// Whether the image was read with file operations.
    #[must_use]
    pub fn fileio_used(&self) -> (r: bool)
        ensures
            r <==> self.bitfields@[0] & 0x20 == 0x20,
    {
        has_flag(self.bitfields[0], 0b00100000)
    }

    /// Whether the image was made at run time.
    #[must_use]
    pub fn dynamic(&self) -> (r: bool)
        ensures
            r <==> self.bitfields@[0] & 0x10 == 0x10,
    {
        has_flag(self.bitfields[0], 0b00010000)
    }

    /// Whether the image was loaded for reflection only.
    #[must_use]
    pub fn ref_only(&self) -> (r: bool)
        ensures
            r <==> self.bitfields@[0] & 0x08 == 0x08,
    {
        has_flag(self.bitfields[0], 0b00001000)
    }

    /// Whether the image's metadata is not compressed.
    #[must_use]
    pub fn uncompressed_metadata(&self) -> (r: bool)
        ensures
            r <==> self.bitfields@[0] & 0x04 == 0x04,
    {
        has_flag(self.bitfields[0], 0b00000100)
    }

    /// Whether only the image's metadata was loaded.
    #[must_use]
    pub fn metadata_only(&self) -> (r: bool)
        ensures
            r <==> self.bitfields@[0] & 0x02 == 0x02,
    {
        has_flag(self.bitfields[0], 0b00000010)
    }

    /// Whether the image was loaded from a load context.
    #[must_use]
    pub fn load_from_context(&self) -> (r: bool)
        ensures
            r <==> self.bitfields@[0] & 0x01 == 0x01,
    {
        has_flag(self.bitfields[0], 0b00000001)
    }

    /// Whether the module's constructor was looked for.
    #[must_use]
    pub fn checked_module_cctor(&self) -> (r: bool)
        ensures
            r <==> self.bitfields@[1] & 0x80 == 0x80,
    {
        has_flag(self.bitfields[1], 0b10000000)
    }

    /// Whether the module has a constructor.
    #[must_use]
    pub fn has_module_cctor(&self) -> (r: bool)
        ensures
            r <==> self.bitfields@[1] & 0x40 == 0x40,
    {
        has_flag(self.bitfields[1], 0b01000000)
    }

    /// Whether indexes into the string heap are wide.
    #[must_use]
    pub fn idx_string_wide(&self) -> (r: bool)
        ensures
            r <==> self.bitfields@[1] & 0x20 == 0x20,
    {
        has_flag(self.bitfields[1], 0b00100000)
    }

    /// Whether indexes into the GUID heap are wide.
    #[must_use]
    pub fn idx_guid_wide(&self) -> (r: bool)
        ensures
            r <==> self.bitfields@[1] & 0x10 == 0x10,
    {
        has_flag(self.bitfields[1], 0b00010000)
    }

    /// Whether indexes into the blob heap are wide.
    #[must_use]
    pub fn idx_blob_wide(&self) -> (r: bool)
        ensures
            r <==> self.bitfields@[1] & 0x08 == 0x08,
    {
        has_flag(self.bitfields[1], 0b00001000)
    }

    /// Whether the image holds platform code.
    #[must_use]
    pub fn core_clr_platform_code(&self) -> (r: bool)
        ensures
            r <==> self.bitfields@[1] & 0x04 == 0x04,
    {
        has_flag(self.bitfields[1], 0b00000100)
    }
}

/// The bytes that the library's text begins with.
pub closed spec fn text_section_pattern_bytes() -> Seq<u8> {
    seq![
        0xcfu8, 0xfa, 0xed, 0xfe, 0x07, 0x00, 0x00, 0x01, 0x03, 0x00, 0x00, 0x00, 0x06, 0x00, 0x00, 0x00, 0x13, 0x00,
        0x00, 0x00, 0x48, 0x08, 0x00, 0x00, 0x85, 0x00, 0x10, 0x00, 0x00, 0x00, 0x00, 0x00, 0x19, 0x00, 0x00, 0x00,
        0x78, 0x02, 0x00, 0x00, 0x5f, 0x5f, 0x54, 0x45, 0x58, 0x54, 0x00, 0x00,
    ]
}

/// The name of the library that holds the runtime.
pub const MONO_LIBRARY_NAME: &'static str = "libmonobdwgc-2.0.dylib";

/// How far after the start of the library's text the table of loaded images
/// lies.
pub const LOADED_IMAGES_OFFSET: usize = 0x0016_d638 + 0x0018_e978 + 0x10;

/// How many bytes after the start of the library are searched for its text.
pub const MAX_OFFSET_BYTES: usize = 1024 * 4096;

/// The bytes that the library's text begins with.
pub fn text_section_pattern() -> (pattern: Vec<u8>)
    ensures
        pattern@ == text_section_pattern_bytes(),
{
    vec![
        0xcf, 0xfa, 0xed, 0xfe, 0x07, 0x00, 0x00, 0x01, 0x03, 0x00, 0x00, 0x00, 0x06, 0x00, 0x00, 0x00, 0x13, 0x00,
        0x00, 0x00, 0x48, 0x08, 0x00, 0x00, 0x85, 0x00, 0x10, 0x00, 0x00, 0x00, 0x00, 0x00, 0x19, 0x00, 0x00, 0x00,
        0x78, 0x02, 0x00, 0x00, 0x5f, 0x5f, 0x54, 0x45, 0x58, 0x54, 0x00, 0x00,
    ]
}

/// The table of the images that the runtime has loaded, by name.
pub struct LoadedImages {
    loaded_images_by_name: Eager<Ptr<GHashTable<String, Eager<Ptr<Image>>>>>,
}

/// The image that a lookup found, seen from the outcome of looking up an
/// image's pointer.
pub open spec fn image_pointer(outcome: Result<Option<Image>, Error>) -> Result<Option<Eager<Ptr<Image>>>, Error> {
    match outcome {
        Ok(Some(image)) => Ok(Some(Eager { value: image })),
        Ok(None) => Ok(None),
        Err(error) => Err(error),
    }
}

impl LoadedImages {
    /// The header of the table.
    pub closed spec fn table(&self) -> GHashTable<String, Eager<Ptr<Image>>> {
        self.loaded_images_by_name.value
    }

    /// What finding the table does in a process whose runtime library begins
    /// at `base`: with the first `cut` requests the start of the library's
    /// text is searched for from `base`, page by page; then the pointer to
    /// the table is read at its fixed distance from that start, and followed.
    pub open spec fn finds(base: Address, pattern: Seq<u8>, events: Seq<ReadEvent>, outcome: Result<Self, Error>) -> bool {
        exists|cut: int, text: Option<Address>|
            {
                &&& 0 <= cut <= events.len()
                &&& #[trigger] searches(
                    VariableLengthAddressRange { start: base, num_bytes: MAX_OFFSET_BYTES },
                    crate::memory::searcher::DEFAULT_PAGE_SIZE,
                    pattern,
                    events.take(cut),
                    text,
                )
                &&& match text {
                    None => cut == events.len() && outcome matches Err(Error::IoError(_)),
                    Some(start) => if start@ + LOADED_IMAGES_OFFSET > usize::MAX {
                        cut == events.len() && outcome == Err::<Self, Error>(Error::AddressOverflowError(start))
                    } else {
                        match outcome {
                            Ok(images) => <Eager<Ptr<GHashTable<String, Eager<Ptr<Image>>>>> as Deserialize>::decodes(
                                Address((start@ + LOADED_IMAGES_OFFSET) as usize),
                                events.skip(cut),
                                Ok(Eager { value: images.table() }),
                            ),
                            Err(error) => <Eager<Ptr<GHashTable<String, Eager<Ptr<Image>>>>> as Deserialize>::decodes(
                                Address((start@ + LOADED_IMAGES_OFFSET) as usize),
                                events.skip(cut),
                                Err(error),
                            ),
                        }
                    },
                }
            }
    }

    /// Finds the table of loaded images in a process whose runtime library
    /// begins at `base`.
    pub fn at<M: MemoryReader>(reader: &mut M, base: Address) -> (r: Result<Self, Error>)
        ensures
            old(reader).history().is_prefix_of(final(reader).history()),
            Self::finds(
                base,
                text_section_pattern_bytes(),
                events_since(old(reader).history(), final(reader).history()),
                r,
            ),
    {
        let ghost h0 = reader.history();
        let pattern = text_section_pattern();
        let searcher = MemorySearcher::new(pattern.as_slice());
        let range = VariableLengthAddressRange { start: base, num_bytes: MAX_OFFSET_BYTES };
        let found = match searcher.search(reader, range) {
            Ok(found) => found,
            Err(error) => {
                return Err(Error::IoError(error));
            },
        };
        let ghost h1 = reader.history();
        proof {
            let events = events_since(h0, h1);
            assert(events.take(events.len() as int) =~= events);
        }
        let text_addr = match found {
            Some(text_addr) => text_addr,
            None => {
                return Err(Error::IoError(other_error("TEXT signature not found")));
            },
        };
        let addr = match text_addr.checked_add(LOADED_IMAGES_OFFSET) {
            Some(addr) => addr,
            None => {
                return Err(Error::AddressOverflowError(text_addr));
            },
        };
        let decoded = Eager::<Ptr<GHashTable<String, Eager<Ptr<Image>>>>>::deserialize(reader, addr);
        proof {
            lemma_events_chain(h0, h1, reader.history());
            let events = events_since(h0, reader.history());
            let cut = events_since(h0, h1).len() as int;
            assert(searches(range, crate::memory::searcher::DEFAULT_PAGE_SIZE, pattern@, events.take(cut), found));
        }
        match decoded {
            Ok(loaded_images_by_name) => Ok(Self { loaded_images_by_name }),
            Err(error) => Err(error),
        }
    }

    /// What finding the table does once the locator has answered: from the
    /// base that was located, the table is found as [`LoadedImages::finds`]
    /// says. When the library was not located, nothing is read, and the
    /// locator's failure is the outcome.
    pub open spec fn finds_after_locating(
        answer: Result<Address, std::io::Error>,
        events: Seq<ReadEvent>,
        outcome: Result<Self, Error>,
    ) -> bool {
        match answer {
            Ok(base) => Self::finds(base, text_section_pattern_bytes(), events, outcome),
            Err(error) => events.len() == 0 && outcome == Err::<Self, Error>(Error::IoError(error)),
        }
    }

    /// Finds the table of loaded images in the process that `locator` and
    /// `reader` look into: the locator is asked once, for the runtime
    /// library, and the table is found from the base that it answers with.
    /// When the runtime library cannot be located, nothing is read.
    pub fn new<L: MemoryLocator, M: MemoryReader>(locator: &mut L, reader: &mut M) -> (r: Result<Self, Error>)
        ensures
            old(reader).history().is_prefix_of(final(reader).history()),
            final(locator).located() == old(locator).located().push(
                LocateEvent { library: MONO_LIBRARY_NAME@, outcome: final(locator).located().last().outcome },
            ),
            Self::finds_after_locating(
                final(locator).located().last().outcome,
                events_since(old(reader).history(), final(reader).history()),
                r,
            ),
    {
        proof {
            lemma_no_events(reader.history());
        }
        match locator.locate(MONO_LIBRARY_NAME) {
            Ok(base_addr) => Self::at(reader, base_addr),
            Err(error) => Err(Error::IoError(error)),
        }
    }

    /// Looks up the image with the name `name`.
    pub fn get_image<M: MemoryReader>(&self, reader: &mut M, name: &str) -> (r: Result<Option<Image>, Error>)
        ensures
            old(reader).history().is_prefix_of(final(reader).history()),
            looks_up_text(
                self.table(),
                name@,
                events_since(old(reader).history(), final(reader).history()),
                image_pointer(r),
            ),
    {
        let key = String::from_str(name);
        let found = self.loaded_images_by_name.value.get(reader, &key);
        let r = match found {
            Ok(Some(pointer)) => Ok(Some(pointer.value)),
            Ok(None) => Ok(None),
            Err(error) => Err(error),
        };
        assert(image_pointer(r) == found);
        assert(self.table().looks_up(
            key,
            events_since(old(reader).history(), reader.history()),
            image_pointer(r),
        ));
        r
    }
}

} // verus!

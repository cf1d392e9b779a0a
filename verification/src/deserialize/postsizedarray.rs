use crate::memory::address::Address;
use crate::memory::reader::{events_since, lemma_events_chain, lemma_no_events, MemoryReader, ReadEvent};
use crate::text::{decimal_string, decimal_text};
use super::arrayptr::{range_step, vec_outcome, ArrayPtr};
use super::cursor::{field_context_text, field_step, FieldCursor};
use super::deserializetrait::{lemma_small_powers_of_two, Deserialize};
use super::error::Error;
use super::layout::{end_after, fields_aligned, FieldLayout};
use super::lazy::LazyDeserialize;
use super::segments::{lemma_prefix_trans, lemma_stretches_chain, stretches};
use vstd::prelude::*;
use vstd::string::StringExecFns;

verus! {

/// An integer that says how many elements an array has.
pub trait ElementCount: Deserialize + Copy {
    /// The number that this integer stands for.
    spec fn count_value(self) -> int;

    /// A count takes no more room than a pointer.
    proof fn lemma_count_size()
        ensures
            Self::NUM_BYTES <= 8,
    ;

    /// The number of elements, when it is one that an array can have: neither
    /// negative nor beyond what a `usize` holds.
    fn to_count(self) -> (r: Result<usize, Error>)
        ensures
            0 <= self.count_value() <= usize::MAX ==> r == Ok::<usize, Error>(self.count_value() as usize),
            !(0 <= self.count_value() <= usize::MAX) ==> r matches Err(Error::IntConversionError(_)),
    ;
}

impl ElementCount for usize {
    open spec fn count_value(self) -> int {
        self as int
    }

    proof fn lemma_count_size() {
        <usize as Deserialize>::lemma_layout();
    }

    fn to_count(self) -> (r: Result<usize, Error>) {
        Ok(self)
    }
}

impl ElementCount for u32 {
    open spec fn count_value(self) -> int {
        self as int
    }

    proof fn lemma_count_size() {
        <u32 as Deserialize>::lemma_layout();
    }

    fn to_count(self) -> (r: Result<usize, Error>) {
        match usize::try_from(self) {
            Ok(count) => Ok(count),
            Err(error) => Err(Error::IntConversionError(error)),
        }
    }
}

impl ElementCount for i32 {
    open spec fn count_value(self) -> int {
        self as int
    }

    proof fn lemma_count_size() {
        <i32 as Deserialize>::lemma_layout();
    }

    fn to_count(self) -> (r: Result<usize, Error>) {
        match usize::try_from(self) {
            Ok(count) => Ok(count),
            Err(error) => Err(Error::IntConversionError(error)),
        }
    }
}

/// A pointer to an array together with the number of its elements, which is
/// stored after the pointer. Decoding reads the pointer and the number only;
/// [`LazyDeserialize::deref`] reads the elements.
pub struct PostSizedArray<T: Deserialize, U: ElementCount = usize> {
    array_ptr: Option<ArrayPtr<T>>,
    size: U,
}

/// The description that is wrapped around the error for an array that has
/// elements but no address.
pub open spec fn null_array_text(size: nat) -> Seq<char> {
    "Null arrayptr in post-sized array with size "@ + decimal_text(size)
}

impl<T: Deserialize, U: ElementCount> PostSizedArray<T, U> {
    /// The field `array_ptr`.
    pub closed spec fn spec_array_ptr(&self) -> Option<ArrayPtr<T>> {
        self.array_ptr
    }

    /// The field `size`.
    pub closed spec fn spec_size(&self) -> U {
        self.size
    }

    /// The layout of field `index`, in declaration order.
    pub open spec fn field_layout(index: int) -> FieldLayout {
        if index == 0 {
            FieldLayout::spec_of::<Option<ArrayPtr<T>>>()
        } else {
            FieldLayout::spec_of::<U>()
        }
    }

    /// The layouts of the fields, in declaration order.
    pub open spec fn fields() -> Seq<FieldLayout> {
        Seq::new(2, |index: int| Self::field_layout(index))
    }

    /// Where the fields before field `index` end, in a structure at `address`.
    pub open spec fn end_before(address: Address, index: int) -> int {
        end_after(address@, Self::fields(), index)
    }

    /// What the reading of field `index` did to arrive at that field of `value`.
    /// Kept out of sight of the prover until it is revealed.
    #[verifier::opaque]
    pub open spec fn field_read(address: Address, value: Self, index: int, events: Seq<ReadEvent>) -> bool {
        if index == 0 {
            field_step::<Option<ArrayPtr<T>>>(
                address,
                Self::end_before(address, 0),
                field_context_text("PostSizedArray"@, "array_ptr"@),
                events,
                Ok(value.spec_array_ptr()),
            )
        } else {
            field_step::<U>(
                address,
                Self::end_before(address, 1),
                field_context_text("PostSizedArray"@, "size"@),
                events,
                Ok(value.spec_size()),
            )
        }
    }

    /// What the reading of field `index` did to fail with `error`. Kept out of
    /// sight of the prover until it is revealed.
    #[verifier::opaque]
    pub open spec fn field_fails(address: Address, index: int, events: Seq<ReadEvent>, error: Error) -> bool {
        if index == 0 {
            field_step::<Option<ArrayPtr<T>>>(
                address,
                Self::end_before(address, 0),
                field_context_text("PostSizedArray"@, "array_ptr"@),
                events,
                Err(error),
            )
        } else {
            field_step::<U>(
                address,
                Self::end_before(address, 1),
                field_context_text("PostSizedArray"@, "size"@),
                events,
                Err(error),
            )
        }
    }

    /// What the reading of each field did, for the fields of `value`.
    pub open spec fn fields_read(address: Address, value: Self) -> spec_fn(int, Seq<ReadEvent>) -> bool {
        |index: int, events: Seq<ReadEvent>| Self::field_read(address, value, index, events)
    }

    /// The fields of `value` were read in declaration order, each at the end of
    /// the one before it rounded up to its own alignment, with exactly the
    /// requests in `events`.
    pub open spec fn reads_fields(address: Address, events: Seq<ReadEvent>, value: Self) -> bool {
        exists|cuts: Seq<int>| #[trigger]
            stretches(2, cuts, events, Self::fields_read(address, value)) && cuts.last() == events.len()
    }

    /// The reading ended with a field that could not be read: `error` is that
    /// field's error, wrapped in a context that names the field.
    pub open spec fn fails_at_field(address: Address, events: Seq<ReadEvent>, error: Error) -> bool {
        exists|index: int, cut: int|
            0 <= index < 2 && 0 <= cut <= events.len() && #[trigger] Self::field_fails(
                address,
                index,
                events.skip(cut),
                error,
            )
    }

    /// When a history grew through one state for each field, and what was added
    /// from each state to the next is the reading of that field of `value`, the
    /// whole of what was added is the reading of `value`.
    pub proof fn lemma_reads_fields(address: Address, value: Self, histories: Seq<Seq<ReadEvent>>)
        requires
            histories.len() == 3,
            forall|i: int|
                0 <= i < 2 ==> (#[trigger] histories[i]).is_prefix_of(histories[i + 1]) && Self::field_read(
                    address,
                    value,
                    i,
                    events_since(histories[i], histories[i + 1]),
                ),
        ensures
            Self::reads_fields(address, events_since(histories[0], histories[2]), value),
    {
        let step = Self::fields_read(address, value);
        assert forall|i: int| 0 <= i < 2 implies (#[trigger] histories[i]).is_prefix_of(histories[i + 1]) && step(
            i,
            events_since(histories[i], histories[i + 1]),
        ) by {
            assert(Self::field_read(address, value, i, events_since(histories[i], histories[i + 1])));
        }
        let cuts = lemma_stretches_chain(2, histories, step);
        assert(stretches(2, cuts, events_since(histories[0], histories[2]), Self::fields_read(address, value)));
    }

    /// The size and alignment of the structure are those of its fields laid
    /// out in declaration order.
    pub proof fn lemma_fields()
        ensures
            fields_aligned(Self::fields()),
            Self::fields().len() == 2,
    {
        <Option<ArrayPtr<T>>>::lemma_layout();
        <U>::lemma_layout();
    }
}
impl<T: Deserialize, U: ElementCount> Deserialize for PostSizedArray<T, U> {
    const NUM_BYTES: usize = 8 + U::NUM_BYTES;

    const ALIGNMENT: usize = 8;

    open spec fn layout() -> FieldLayout {
        FieldLayout { num_bytes: (8 + U::layout().num_bytes) as usize, alignment: 8 }
    }

    proof fn lemma_layout() {
        lemma_small_powers_of_two();
        U::lemma_count_size();
        U::lemma_layout();
    }

    /// The fields are read in declaration order, each at the end of the one
    /// before it rounded up to its own alignment. The first field that cannot
    /// be read ends the reading; its error is the outcome, wrapped in a
    /// context that names the field.
    open spec fn decodes(address: Address, events: Seq<ReadEvent>, outcome: Result<Self, Error>) -> bool {
        match outcome {
            Ok(value) => Self::reads_fields(address, events, value),
            Err(error) => Self::fails_at_field(address, events, error),
        }
    }

    fn deserialize<M: MemoryReader>(reader: &mut M, address: Address) -> (r: Result<Self, Error>) {
        let ghost h0 = reader.history();
        let mut cursor = FieldCursor::new(address);
        proof {
            Self::lemma_fields();
            lemma_no_events(h0);
            assert(Self::end_before(address, 0) == address@);
        }
        let field0 = match cursor.field::<Option<ArrayPtr<T>>, M>(reader, "PostSizedArray", "array_ptr") {
            Ok(value) => value,
            Err(error) => {
                proof {
                    lemma_events_chain(h0, h0, reader.history());
                    let cut = events_since(h0, h0).len() as int;
                    assert(Self::field_fails(address, 0, events_since(h0, reader.history()).skip(cut), error)) by {
                        reveal(PostSizedArray::field_fails);
                    }
                    assert(Self::fails_at_field(address, events_since(h0, reader.history()), error));
                }
                return Err(error);
            },
        };
        let ghost h1 = reader.history();
        proof {
            lemma_prefix_trans(h0, h0, h1);
            assert(cursor.end() == Self::end_before(address, 1));
        }
        let field1 = match cursor.field::<U, M>(reader, "PostSizedArray", "size") {
            Ok(value) => value,
            Err(error) => {
                proof {
                    lemma_events_chain(h0, h1, reader.history());
                    let cut = events_since(h0, h1).len() as int;
                    assert(Self::field_fails(address, 1, events_since(h0, reader.history()).skip(cut), error)) by {
                        reveal(PostSizedArray::field_fails);
                    }
                    assert(Self::fails_at_field(address, events_since(h0, reader.history()), error));
                }
                return Err(error);
            },
        };
        let ghost h2 = reader.history();
        proof {
            lemma_prefix_trans(h0, h1, h2);
            assert(cursor.end() == Self::end_before(address, 2));
        }
        let value = Self { array_ptr: field0, size: field1 };
        proof {
            let histories = Seq::new(3, |i: int|
                if i == 0 {
                    h0
                } else if i == 1 {
                    h1
                } else {
                    h2
                });
            assert forall|i: int| 0 <= i < 2 implies (#[trigger] histories[i]).is_prefix_of(histories[i + 1])
                && Self::field_read(address, value, i, events_since(histories[i], histories[i + 1])) by {
                if i == 0 {
                    assert(Self::field_read(address, value, 0, events_since(h0, h1))) by {
                        reveal(PostSizedArray::field_read);
                    }
                } else if i == 1 {
                    assert(Self::field_read(address, value, 1, events_since(h1, h2))) by {
                        reveal(PostSizedArray::field_read);
                    }
                }
            }
            Self::lemma_reads_fields(address, value, histories);
        }
        Ok(value)
    }
}

impl<T: Deserialize, U: ElementCount> PostSizedArray<T, U> {
    /// An array of `size` elements behind `array_ptr`.
    pub fn new(array_ptr: Option<ArrayPtr<T>>, size: U) -> (r: Self)
        ensures
            r.spec_array_ptr() == array_ptr,
            r.spec_size() == size,
    {
        PostSizedArray { array_ptr, size }
    }

    /// The number of elements, as it was stored.
    pub fn size(&self) -> (r: U)
        ensures
            r == self.spec_size(),
    {
        self.size
    }

    /// The pointer to the first element, if there is one.
    pub fn array_ptr(&self) -> (r: &Option<ArrayPtr<T>>)
        ensures
            *r == self.spec_array_ptr(),
    {
        &self.array_ptr
    }
}

impl<T: Deserialize, U: ElementCount> LazyDeserialize for PostSizedArray<T, U> {
    type Deserialized = Vec<T>;

    /// A number of elements that is no count is an error, with nothing read.
    /// No elements are an empty result, with nothing read, whatever the
    /// pointer is. Elements without a pointer are an error, with nothing read.
    /// Otherwise the elements are read in index order through the pointer.
    open spec fn derefs(&self, events: Seq<ReadEvent>, outcome: Result<Vec<T>, Error>) -> bool {
        let size = self.spec_size().count_value();
        if !(0 <= size <= usize::MAX) {
            events.len() == 0 && outcome matches Err(Error::IntConversionError(_))
        } else if size == 0 {
            events.len() == 0 && vec_outcome(outcome) == Ok::<Seq<T>, Error>(Seq::empty())
        } else {
            match self.spec_array_ptr() {
                Some(pointer) => range_step::<T>(pointer.target(), size, events, vec_outcome(outcome)),
                None => {
                    &&& events.len() == 0
                    &&& outcome matches Err(Error::WithContext(cause, text))
                    &&& *cause == Error::NullPtrError(Address(0))
                    &&& text@ == null_array_text(size as nat)
                },
            }
        }
    }

    fn deref<M: MemoryReader>(&self, reader: &mut M) -> (r: Result<Vec<T>, Error>) {
        proof {
            lemma_no_events(reader.history());
        }
        let size = match self.size.to_count() {
            Ok(size) => size,
            Err(error) => {
                return Err(error);
            },
        };
        if size == 0 {
            return Ok(Vec::new());
        }
        match &self.array_ptr {
            Some(pointer) => pointer.deref(reader, size),
            None => Err(
                Error::NullPtrError(Address::new(0)).with_context(
                    String::from_str("Null arrayptr in post-sized array with size ").concat(
                        decimal_string(size).as_str(),
                    ),
                ),
            ),
        }
    }
}

} // verus!

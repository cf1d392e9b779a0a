use crate::memory::address::{align_up, is_power_of_two, lemma_align_up_bounds, Address};
use super::deserializetrait::Deserialize;
use vstd::prelude::*;

verus! {

/// The size and alignment of one field of a structure.
#[derive(Debug, Clone, Copy, PartialEq, Eq)]
pub struct FieldLayout {
    /// The number of bytes that the field takes.
    pub num_bytes: usize,
    /// The alignment of the field, a power of two.
    pub alignment: usize,
}

impl FieldLayout {
    /// The layout of a field of type `T`.
    pub open spec fn spec_of<T: Deserialize>() -> FieldLayout {
        FieldLayout { num_bytes: T::NUM_BYTES, alignment: T::ALIGNMENT }
    }

    /// The layout of a field of type `T`.
    pub fn of<T: Deserialize>() -> (layout: FieldLayout)
        ensures
            layout == Self::spec_of::<T>(),
            is_power_of_two(layout.alignment as int),
    {
        proof {
            T::lemma_layout();
        }
        FieldLayout { num_bytes: T::NUM_BYTES, alignment: T::ALIGNMENT }
    }
}

/// Every field's alignment is a power of two.
pub open spec fn fields_aligned(fields: Seq<FieldLayout>) -> bool {
    forall|i: int| 0 <= i < fields.len() ==> is_power_of_two(#[trigger] fields[i].alignment as int)
}

/// The offset reached when the first `count` of `fields` are laid out one
/// after the other from `start`, each first rounded up to its own alignment.
pub open spec fn end_after(start: int, fields: Seq<FieldLayout>, count: int) -> int
    decreases count,
{
    if count <= 0 {
        start
    } else {
        align_up(end_after(start, fields, count - 1), fields[count - 1].alignment as int) + fields[count
            - 1].num_bytes
    }
}

/// The offset reached when all of `fields` are laid out from `start`.
pub open spec fn layout_end(start: int, fields: Seq<FieldLayout>) -> int {
    end_after(start, fields, fields.len() as int)
}

/// Where field `index` begins when `fields` are laid out from `start`.
pub open spec fn field_start(start: int, fields: Seq<FieldLayout>, index: int) -> int
    recommends
        0 <= index < fields.len(),
{
    align_up(end_after(start, fields, index), fields[index].alignment as int)
}

/// The size of a structure with these fields.
pub open spec fn struct_num_bytes(fields: Seq<FieldLayout>) -> int {
    layout_end(0, fields)
}

/// The largest alignment among the first `count` of `fields`, and 1 when
/// there is none.
pub open spec fn alignment_among(fields: Seq<FieldLayout>, count: int) -> int
    decreases count,
{
    if count <= 0 {
        1
    } else {
        let rest = alignment_among(fields, count - 1);
        if rest >= fields[count - 1].alignment {
            rest
        } else {
            fields[count - 1].alignment as int
        }
    }
}

/// The alignment of a structure with these fields: the largest alignment among
/// them, and 1 for a structure without fields.
pub open spec fn struct_alignment(fields: Seq<FieldLayout>) -> int {
    alignment_among(fields, fields.len() as int)
}

/// A power of two is positive.
pub proof fn lemma_power_of_two_positive(a: int)
    requires
        is_power_of_two(a),
    ensures
        a > 0,
{
    reveal(vstd::arithmetic::power2::is_pow2);
}

/// A layout never ends before it starts, and laying out more fields never
/// ends earlier.
pub proof fn lemma_end_after_monotone(start: int, fields: Seq<FieldLayout>, fewer: int, more: int)
    requires
        0 <= start,
        fields_aligned(fields),
        0 <= fewer <= more <= fields.len(),
    ensures
        start <= end_after(start, fields, fewer) <= end_after(start, fields, more),
    decreases more,
{
    if more > 0 {
        lemma_end_after_monotone(start, fields, if fewer == more { fewer - 1 } else { fewer }, more - 1);
        assert(is_power_of_two(fields[more - 1].alignment as int));
        lemma_power_of_two_positive(fields[more - 1].alignment as int);
        lemma_align_up_bounds(end_after(start, fields, more - 1), fields[more - 1].alignment as int);
    }
}

/// Each field begins at a multiple of its alignment, at or after the end of
/// the field before it and less than one alignment later; the structure ends
/// where its last field ends.
pub proof fn lemma_layout_in_order(start: int, fields: Seq<FieldLayout>, index: int)
    requires
        0 <= start,
        fields_aligned(fields),
        0 <= index < fields.len(),
    ensures
        field_start(start, fields, index) % (fields[index].alignment as int) == 0,
        index == 0 ==> start <= field_start(start, fields, index) < start + fields[index].alignment,
        index > 0 ==> {
            let previous_end = field_start(start, fields, index - 1) + fields[index - 1].num_bytes;
            previous_end <= field_start(start, fields, index) < previous_end + fields[index].alignment
        },
        end_after(start, fields, index + 1) == field_start(start, fields, index) + fields[index].num_bytes,
        index == fields.len() - 1 ==> layout_end(start, fields) == field_start(start, fields, index)
            + fields[index].num_bytes,
{
    lemma_end_after_monotone(start, fields, index, index);
    assert(is_power_of_two(fields[index].alignment as int));
    lemma_power_of_two_positive(fields[index].alignment as int);
    lemma_align_up_bounds(end_after(start, fields, index), fields[index].alignment as int);
}

/// A structure that begins at a multiple of its own alignment has each field
/// at a fixed distance from its start: the field's offset in the layout
/// from 0.
pub proof fn lemma_aligned_start_shifts(start: int, fields: Seq<FieldLayout>, count: int)
    requires
        0 <= start,
        fields_aligned(fields),
        0 <= count <= fields.len(),
        start % struct_alignment(fields) == 0,
    ensures
        end_after(start, fields, count) == start + end_after(0, fields, count),
        count < fields.len() ==> field_start(start, fields, count) == start + field_start(0, fields, count),
    decreases count,
{
    lemma_struct_alignment(fields);
    if count > 0 {
        lemma_aligned_start_shifts(start, fields, count - 1);
    }
    if count < fields.len() {
        let a = fields[count].alignment as int;
        let big = struct_alignment(fields);
        let e = end_after(0, fields, count);
        assert(is_power_of_two(a));
        lemma_power_of_two_positive(a);
        lemma_end_after_monotone(0, fields, count, count);
        lemma_power_of_two_divides(a, big);
        // start is a multiple of a, so rounding up commutes with adding start
        assert(big == a * (big / a)) by {
            vstd::arithmetic::div_mod::lemma_fundamental_div_mod(big, a);
        }
        assert(start % a == 0) by {
            vstd::arithmetic::div_mod::lemma_fundamental_div_mod(start, big);
            let q = start / big;
            assert(start == big * q);
            assert(start == a * ((big / a) * q)) by (nonlinear_arith)
                requires
                    start == big * q,
                    big == a * (big / a),
            ;
            assert(a * ((big / a) * q) == ((big / a) * q) * a) by (nonlinear_arith);
            vstd::arithmetic::div_mod::lemma_mod_multiples_basic((big / a) * q, a);
        }
        lemma_align_up_shift(e, start, a);
    }
}

/// Of two powers of two, the smaller divides the larger.
pub proof fn lemma_power_of_two_divides(small: int, big: int)
    requires
        is_power_of_two(small),
        is_power_of_two(big),
        small <= big,
    ensures
        big % small == 0,
    decreases big,
{
    reveal(vstd::arithmetic::power2::is_pow2);
    lemma_power_of_two_positive(small);
    if small == big {
        vstd::arithmetic::div_mod::lemma_mod_self_0(small);
    } else {
        // big is even and big / 2 is a power of two that is still at least small
        assert(big > 1);
        assert(big % 2 == 0 && is_power_of_two(big / 2));
        if small > big / 2 {
            // small lies strictly between big / 2 and big: impossible
            lemma_power_of_two_gap(small, big / 2);
            assert(false);
        }
        lemma_power_of_two_divides(small, big / 2);
        let half = big / 2;
        vstd::arithmetic::div_mod::lemma_fundamental_div_mod(half, small);
        assert(big == (2 * (half / small)) * small) by (nonlinear_arith)
            requires
                big == 2 * half,
                half == small * (half / small),
        ;
        vstd::arithmetic::div_mod::lemma_mod_multiples_basic(2 * (half / small), small);
    }
}

/// No power of two lies strictly between a power of two and its double.
proof fn lemma_power_of_two_gap(p: int, q: int)
    requires
        is_power_of_two(p),
        is_power_of_two(q),
        q < p,
    ensures
        2 * q <= p,
    decreases p,
{
    reveal(vstd::arithmetic::power2::is_pow2);
    lemma_power_of_two_positive(q);
    if q == 1 {
    } else {
        assert(p > 1);
        lemma_power_of_two_gap(p / 2, q / 2);
    }
}

/// Rounding up and adding a multiple of the alignment can be done in either
/// order.
pub proof fn lemma_align_up_shift(x: int, shift: int, a: int)
    requires
        0 <= x,
        0 <= shift,
        0 < a,
        shift % a == 0,
    ensures
        align_up(x + shift, a) == align_up(x, a) + shift,
{
    lemma_align_up_bounds(x, a);
    lemma_align_up_bounds(x + shift, a);
    let r = align_up(x, a) + shift;
    assert(r % a == 0) by {
        vstd::arithmetic::div_mod::lemma_add_mod_noop(align_up(x, a), shift, a);
        vstd::arithmetic::div_mod::lemma_small_mod(0, a as nat);
    }
    crate::memory::address::lemma_align_up_least(x + shift, a, r);
    let back = align_up(x + shift, a) - shift;
    assert(back % a == 0) by {
        vstd::arithmetic::div_mod::lemma_sub_mod_noop(align_up(x + shift, a), shift, a);
        vstd::arithmetic::div_mod::lemma_small_mod(0, a as nat);
    }
    crate::memory::address::lemma_align_up_least(x, a, back);
}

/// The alignment of a structure is a power of two, is at least 1 and at least
/// the alignment of each field, and is 1 or the alignment of one of the
/// fields.
pub proof fn lemma_struct_alignment(fields: Seq<FieldLayout>)
    requires
        fields_aligned(fields),
    ensures
        is_power_of_two(struct_alignment(fields)),
        struct_alignment(fields) >= 1,
        forall|i: int| 0 <= i < fields.len() ==> struct_alignment(fields) >= (#[trigger] fields[i]).alignment,
        struct_alignment(fields) == 1 || exists|i: int|
            0 <= i < fields.len() && struct_alignment(fields) == (#[trigger] fields[i]).alignment,
{
    lemma_alignment_among(fields, fields.len() as int);
}

proof fn lemma_alignment_among(fields: Seq<FieldLayout>, count: int)
    requires
        fields_aligned(fields),
        0 <= count <= fields.len(),
    ensures
        is_power_of_two(alignment_among(fields, count)),
        alignment_among(fields, count) >= 1,
        forall|i: int| 0 <= i < count ==> alignment_among(fields, count) >= (#[trigger] fields[i]).alignment,
        alignment_among(fields, count) == 1 || exists|i: int|
            0 <= i < count && alignment_among(fields, count) == (#[trigger] fields[i]).alignment,
    decreases count,
{
    if count == 0 {
        reveal_with_fuel(vstd::arithmetic::power2::is_pow2, 2);
    } else {
        lemma_alignment_among(fields, count - 1);
        assert(is_power_of_two(fields[count - 1].alignment as int));
        let whole = alignment_among(fields, count);
        let rest = alignment_among(fields, count - 1);
        if whole != 1 {
            if whole == fields[count - 1].alignment {
            } else {
                let i = choose|i: int| 0 <= i < count - 1 && rest == (#[trigger] fields[i]).alignment;
                assert(whole == fields[i].alignment);
            }
        }
    }
}

/// The size of a structure with these fields, which are taken in declaration
/// order; `None` when the size does not fit a `usize`.
pub fn num_bytes(fields: &Vec<FieldLayout>) -> (r: Option<usize>)
    requires
        fields_aligned(fields@),
    ensures
        r matches Some(n) ==> n == struct_num_bytes(fields@),
        r is Some <==> struct_num_bytes(fields@) <= usize::MAX,
{
    let mut end: usize = 0;
    let mut i: usize = 0;
    while i < fields.len()
        invariant
            0 <= i <= fields.len(),
            fields_aligned(fields@),
            end == end_after(0, fields@, i as int),
        decreases fields.len() - i,
    {
        let field = fields[i];
        proof {
            assert(is_power_of_two(fields@[i as int].alignment as int));
            lemma_power_of_two_positive(field.alignment as int);
            lemma_align_up_bounds(end as int, field.alignment as int);
        }
        let next_end = match Address::new(end).checked_align_forward(field.alignment) {
            Some(start) => start.checked_add(field.num_bytes),
            None => None,
        };
        match next_end {
            Some(address) => {
                end = address.raw();
            },
            None => {
                proof {
                    lemma_end_after_monotone(0, fields@, i + 1, fields@.len() as int);
                }
                return None;
            },
        }
        i += 1;
    }
    Some(end)
}

/// The offset of each field of a structure with these fields; `None` when
/// a field would begin beyond what a `usize` can hold.
pub fn field_offsets(fields: &Vec<FieldLayout>) -> (r: Option<Vec<usize>>)
    requires
        fields_aligned(fields@),
    ensures
        r matches Some(offsets) ==> {
            &&& offsets@.len() == fields@.len()
            &&& forall|i: int| 0 <= i < offsets@.len() ==> #[trigger] offsets@[i] == field_start(0, fields@, i)
        },
        r is Some <==> forall|i: int| 0 <= i < fields@.len() ==> #[trigger] field_start(0, fields@, i) <= usize::MAX,
{
    let mut offsets: Vec<usize> = Vec::new();
    let mut end: Option<usize> = Some(0);
    let mut i: usize = 0;
    while i < fields.len()
        invariant
            0 <= i <= fields.len(),
            fields_aligned(fields@),
            offsets@.len() == i,
            forall|j: int| 0 <= j < i ==> #[trigger] offsets@[j] == field_start(0, fields@, j),
            end matches Some(e) ==> e == end_after(0, fields@, i as int),
            end is None ==> end_after(0, fields@, i as int) > usize::MAX,
        decreases fields.len() - i,
    {
        let field = fields[i];
        proof {
            assert(is_power_of_two(fields@[i as int].alignment as int));
            lemma_power_of_two_positive(field.alignment as int);
            lemma_end_after_monotone(0, fields@, i as int, i as int);
            lemma_align_up_bounds(end_after(0, fields@, i as int), field.alignment as int);
        }
        let start = match end {
            Some(e) => Address::new(e).checked_align_forward(field.alignment),
            None => None,
        };
        match start {
            Some(address) => {
                offsets.push(address.raw());
                end = match address.checked_add(field.num_bytes) {
                    Some(next) => Some(next.raw()),
                    None => None,
                };
            },
            None => {
                assert(field_start(0, fields@, i as int) > usize::MAX);
                return None;
            },
        }
        i += 1;
    }
    assert forall|i: int| 0 <= i < fields@.len() implies #[trigger] field_start(0, fields@, i) <= usize::MAX by {
        assert(offsets@[i] == field_start(0, fields@, i));
    }
    Some(offsets)
}

/// The alignment of a structure with these fields.
pub fn alignment(fields: &Vec<FieldLayout>) -> (r: usize)
    ensures
        r == struct_alignment(fields@),
{
    let mut result: usize = 1;
    let mut i: usize = 0;
    while i < fields.len()
        invariant
            0 <= i <= fields.len(),
            result == alignment_among(fields@, i as int),
        decreases fields.len() - i,
    {
        if result < fields[i].alignment {
            result = fields[i].alignment;
        }
        i += 1;
    }
    result
}

} // verus!

use vstd::arithmetic::div_mod::{lemma_fundamental_div_mod, lemma_mod_multiples_basic};
use vstd::arithmetic::power2::{is_pow2, is_pow2_equiv, is_pow2_exists, pow2};
use vstd::bits::lemma_usize_low_bits_mask_is_mod;
use vstd::prelude::*;

verus! {

/// `a` is a power of two: the only kind of alignment that this library knows.
pub open spec fn is_power_of_two(a: int) -> bool {
    is_pow2(a)
}

/// The least multiple of `a` that is not below `x`.
pub open spec fn align_up(x: int, a: int) -> int {
    ((x + a - 1) / a) * a
}

/// Rounding up to a positive alignment never goes down, lands on a multiple of
/// the alignment, and moves by less than one alignment.
pub proof fn lemma_align_up_bounds(x: int, a: int)
    requires
        0 <= x,
        0 < a,
    ensures
        align_up(x, a) >= x,
        align_up(x, a) % a == 0,
        align_up(x, a) - x < a,
        align_up(x, a) == (x + a - 1) - (x + a - 1) % a,
{
    let y = x + a - 1;
    lemma_fundamental_div_mod(y, a);
    assert(a * (y / a) == (y / a) * a) by (nonlinear_arith);
    lemma_mod_multiples_basic(y / a, a);
}

/// `align_up(x, a)` is the least multiple of `a` at or above `x`: any other
/// multiple in reach is at least as large.
pub proof fn lemma_align_up_least(x: int, a: int, m: int)
    requires
        0 <= x,
        0 < a,
        m >= x,
        m % a == 0,
    ensures
        align_up(x, a) <= m,
{
    lemma_align_up_bounds(x, a);
    let r = align_up(x, a);
    if r > m {
        // two multiples of `a` strictly less than `a` apart are equal
        lemma_fundamental_div_mod(r, a);
        lemma_fundamental_div_mod(m, a);
        assert(r == a * (r / a));
        assert(m == a * (m / a));
        assert(r - m == a * (r / a - m / a)) by (nonlinear_arith)
            requires
                r == a * (r / a),
                m == a * (m / a),
        ;
        assert(r / a - m / a >= 1) by (nonlinear_arith)
            requires
                r - m == a * (r / a - m / a),
                r - m > 0,
                a > 0,
        ;
        assert(r - m >= a) by (nonlinear_arith)
            requires
                r - m == a * (r / a - m / a),
                r / a - m / a >= 1,
                a > 0,
        ;
    }
}

/// An aligned value stays where it is.
pub proof fn lemma_align_up_fixed(x: int, a: int)
    requires
        0 <= x,
        0 < a,
        x % a == 0,
    ensures
        align_up(x, a) == x,
{
    lemma_align_up_bounds(x, a);
    lemma_align_up_least(x, a, x);
}

/// The exponent of a power of two that fits a `usize`.
proof fn lemma_power_of_two_exponent(a: usize) -> (n: nat)
    requires
        is_power_of_two(a as int),
    ensures
        pow2(n) == a,
        n < usize::BITS,
        a > 0,
{
    is_pow2_equiv(a as int);
    assert(is_pow2_exists(a as int));
    let n = choose|n: nat| vstd::arithmetic::power::pow(2, n) == a as int;
    vstd::arithmetic::power2::lemma_pow2_pos(n);
    if n >= usize::BITS {
        vstd::arithmetic::power2::lemma2_to64();
        if n > usize::BITS {
            vstd::arithmetic::power2::lemma_pow2_strictly_increases(usize::BITS as nat, n);
        }
        assert(false);
    }
    n
}

/// Powers of two are positive, and the mask below one is its remainder mask.
proof fn lemma_power_of_two_mask(x: usize, a: usize)
    requires
        is_power_of_two(a as int),
    ensures
        a > 0,
        x & ((a - 1) as usize) == x % a,
{
    let n = lemma_power_of_two_exponent(a);
    lemma_usize_low_bits_mask_is_mod(x, n);
}

/// A byte offset into the address space of another process.
#[derive(Debug, Clone, Copy, PartialEq, Eq, PartialOrd, Ord, Structural)]
pub struct Address(pub usize);

impl View for Address {
    type V = int;

    open spec fn view(&self) -> int {
        self.0 as int
    }
}

impl Address {
    /// The address that stands for the byte offset `raw`.
    #[must_use]
    pub fn new(raw: usize) -> (a: Self)
        ensures
            a@ == raw,
    {
        Self(raw)
    }

    /// The byte offset that this address stands for.
    #[must_use]
    pub fn raw(self) -> (r: usize)
        ensures
            r == self@,
    {
        self.0
    }

    /// The address as it is shown: in hexadecimal, after the prefix `0x`.
    pub fn to_string(&self) -> (text: String)
        ensures
            text@ == crate::text::hex_text(self@ as nat),
    {
        crate::text::hex_string(self.0)
    }

    /// Rounds this address up to the next multiple of `alignment`, which must
    /// be a power of two. The rounded address must still be representable.
    #[must_use]
    pub fn align_forward(self, alignment: usize) -> (r: Self)
        requires
            is_power_of_two(alignment as int),
            self@ + alignment - 1 <= usize::MAX,
        ensures
            r@ == align_up(self@, alignment as int),
            r@ >= self@,
            r@ % (alignment as int) == 0,
            r@ - self@ < alignment,
    {
        proof {
            lemma_power_of_two_mask(self.0, alignment);
        }
        let alignment_mask: usize = alignment - 1;
        let addr_in_correct_block: usize = self.0 + alignment_mask;
        let addr_aligned: usize = addr_in_correct_block & !alignment_mask;
        proof {
            let y = addr_in_correct_block;
            let m = alignment_mask;
            assert(y & !m == y - (y & m)) by (bit_vector);
            lemma_power_of_two_mask(y, alignment);
            lemma_align_up_bounds(self@, alignment as int);
        }
        Self(addr_aligned)
    }

    /// As [`Address::align_forward`], but `None` when the rounded address
    /// would not fit the address space.
    #[must_use]
    pub fn checked_align_forward(self, alignment: usize) -> (r: Option<Self>)
        requires
            is_power_of_two(alignment as int),
        ensures
            r matches Some(a) ==> a@ == align_up(self@, alignment as int),
            r is Some <==> align_up(self@, alignment as int) <= usize::MAX,
    {
        proof {
            lemma_power_of_two_mask(self.0, alignment);
            lemma_align_up_bounds(self@, alignment as int);
        }
        if self.0 <= usize::MAX - (alignment - 1) {
            Some(self.align_forward(alignment))
        } else {
            proof {
                // every multiple of `alignment` at or above `self` is out of reach
                let x = self@;
                let a = alignment as int;
                let top = usize::MAX as int;
                let r = align_up(x, a);
                if r <= top {
                    // the gap from x to the top is below a - 1, but the top + 1 is a multiple
                    lemma_top_is_aligned(alignment);
                    lemma_align_up_least(x, a, top + 1);
                    assert(r <= top + 1);
                    // r is a multiple of a in [x, top], top + 1 is the next multiple
                    lemma_fundamental_div_mod(r, a);
                    lemma_fundamental_div_mod(top + 1, a);
                    assert(top + 1 - r == a * ((top + 1) / a - r / a)) by (nonlinear_arith)
                        requires
                            r == a * (r / a),
                            top + 1 == a * ((top + 1) / a),
                    ;
                    assert((top + 1) / a - r / a >= 1) by (nonlinear_arith)
                        requires
                            top + 1 - r == a * ((top + 1) / a - r / a),
                            top + 1 - r > 0,
                            a > 0,
                    ;
                    assert(top + 1 - r >= a) by (nonlinear_arith)
                        requires
                            top + 1 - r == a * ((top + 1) / a - r / a),
                            (top + 1) / a - r / a >= 1,
                            a > 0,
                    ;
                    assert(false);
                }
            }
            None
        }
    }

    /// The address `offset` bytes further on. The sum must be representable.
    #[must_use]
    pub fn add_const(self, offset: usize) -> (r: Self)
        requires
            self@ + offset <= usize::MAX,
        ensures
            r@ == self@ + offset,
    {
        Self(self.0 + offset)
    }

    /// The address `offset` bytes further on, or `None` when the sum does not
    /// fit the address space.
    #[must_use]
    pub fn checked_add(self, offset: usize) -> (r: Option<Self>)
        ensures
            r matches Some(a) ==> a@ == self@ + offset,
            r is Some <==> self@ + offset <= usize::MAX,
    {
        match self.0.checked_add(offset) {
            None => None,
            Some(new_raw_addr) => Some(Self(new_raw_addr)),
        }
    }
}

impl core::ops::Add<usize> for Address {
    type Output = Self;

    /// The address `offset` bytes further on. The sum must be representable.
    fn add(self, offset: usize) -> (r: Self) {
        self.add_const(offset)
    }
}

impl vstd::std_specs::ops::AddSpecImpl<usize> for Address {
    open spec fn obeys_add_spec() -> bool {
        true
    }

    open spec fn add_req(self, offset: usize) -> bool {
        self@ + offset <= usize::MAX
    }

    open spec fn add_spec(self, offset: usize) -> Self {
        Address((self@ + offset) as usize)
    }
}

/// One past the largest `usize` is a multiple of every power of two that a
/// `usize` can hold.
proof fn lemma_top_is_aligned(a: usize)
    requires
        is_power_of_two(a as int),
    ensures
        (usize::MAX as int + 1) % (a as int) == 0,
{
    let n = lemma_power_of_two_exponent(a);
    let bits = usize::BITS as nat;
    vstd::arithmetic::power2::lemma2_to64();
    assert(pow2(bits) == usize::MAX as int + 1);
    vstd::arithmetic::power2::lemma_pow2_adds((bits - n) as nat, n);
    lemma_mod_multiples_basic(pow2((bits - n) as nat) as int, a as int);
}

/// A contiguous range of `NUM_BYTES` bytes in another process's memory.
#[derive(Debug, Clone, Copy, PartialEq, Eq, PartialOrd, Ord)]
pub struct AddressRange<const NUM_BYTES: usize> {
    /// The address where this range begins.
    pub start: Address,
}

impl<const NUM_BYTES: usize> AddressRange<NUM_BYTES> {
    /// The first offset past the range, which may lie beyond the address space.
    pub open spec fn end(self) -> int {
        self.start@ + NUM_BYTES
    }

    /// Whether `other` lies entirely within this range: it starts no earlier
    /// and ends no later.
    #[must_use]
    pub fn contains<const OTHER_NUM_BYTES: usize>(self, other: AddressRange<OTHER_NUM_BYTES>) -> (r: bool)
        ensures
            r <==> (self.start@ <= other.start@ && other.end() <= self.end()),
    {
        span_contains(self.start, NUM_BYTES, other.start, OTHER_NUM_BYTES)
    }
}

/// A contiguous range of bytes in another process's memory, of a length known
/// only at run time.
#[derive(Debug, Clone, Copy, PartialEq, Eq)]
pub struct VariableLengthAddressRange {
    /// The address where this range begins.
    pub start: Address,
    /// The number of bytes contained within this range.
    pub num_bytes: usize,
}

impl VariableLengthAddressRange {
    /// The first offset past the range, which may lie beyond the address space.
    pub open spec fn end(self) -> int {
        self.start@ + self.num_bytes
    }

    /// Whether `other` lies entirely within this range: it starts no earlier
    /// and ends no later.
    #[must_use]
    pub fn contains(self, other: Self) -> (r: bool)
        ensures
            r <==> (self.start@ <= other.start@ && other.end() <= self.end()),
    {
        span_contains(self.start, self.num_bytes, other.start, other.num_bytes)
    }
}

/// Span inclusion without ever forming an end offset, which might not fit.
fn span_contains(start: Address, len: usize, other_start: Address, other_len: usize) -> (r: bool)
    ensures
        r <==> (start@ <= other_start@ && other_start@ + other_len <= start@ + len),
{
    if other_start.raw() < start.raw() {
        return false;
    }
    let lead: usize = other_start.raw() - start.raw();
    lead <= len && other_len <= len - lead
}

} // verus!

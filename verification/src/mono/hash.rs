use vstd::arithmetic::div_mod::{lemma_fundamental_div_mod, lemma_fundamental_div_mod_converse};
use vstd::prelude::*;
use vstd::slice::slice_index_get;
use vstd::string::StringSliceAdditionalSpecFns;

verus! {

/// Trait for keys of the hash tables of the other process. The hash must be
/// the one that the other process computes, or lookups go to the wrong bucket.
pub trait Hash {
    /// The hash of this key.
    spec fn spec_hash(&self) -> u32;

    /// Computes the hash of this key.
    #[must_use]
    fn hash(&self) -> (r: u32)
        ensures
            r == self.spec_hash(),
    ;
}

/// One step of the string hash: thirty-one times the hash so far, less the
/// next byte, in 32 bits.
pub open spec fn hash_step(hash: u32, byte: u8) -> u32 {
    ((31 * hash - byte) % 0x1_0000_0000) as u32
}

/// The hash after the steps for the first `count` of `bytes`.
pub open spec fn hash_steps(bytes: Seq<u8>, count: int) -> u32
    decreases count,
{
    if count <= 0 {
        0
    } else {
        hash_step(hash_steps(bytes, count - 1), bytes[count - 1])
    }
}

/// The hash of a string with the bytes `bytes`, as the other process computes
/// it over the zero-terminated string: one step for each byte after the
/// first, and one for the terminator. The empty string hashes to zero.
pub open spec fn string_hash(bytes: Seq<u8>) -> u32 {
    if bytes.len() == 0 {
        0
    } else {
        let stepped = bytes.skip(1).push(0u8);
        hash_steps(stepped, stepped.len() as int)
    }
}

/// The wrapping shift, addition and subtraction of one step come to the same
/// as the step's arithmetic.
proof fn lemma_hash_step(hash: u32, byte: u8)
    ensures
        vstd::wrapping::u32_specs::wrapping_sub(
            vstd::wrapping::u32_specs::wrapping_shl(hash, 5),
            vstd::wrapping::u32_specs::wrapping_add(hash, byte as u32),
        ) == hash_step(hash, byte),
{
    let modulus = 0x1_0000_0000int;
    let shifted = vstd::wrapping::u32_specs::wrapping_shl(hash, 5);
    let summed = vstd::wrapping::u32_specs::wrapping_add(hash, byte as u32);
    let result = vstd::wrapping::u32_specs::wrapping_sub(shifted, summed);
    assert(5u32 % 32 == 5) by (bit_vector);
    assert(shifted == hash << 5);
    assert((hash << 5) == (hash as int * 32) % 0x1_0000_0000) by (bit_vector);
    lemma_fundamental_div_mod(hash as int * 32, modulus);
    let k1 = (hash as int * 32) / modulus;
    let k2 = if hash + byte > u32::MAX { 1int } else { 0int };
    let k3 = if shifted - summed < 0 { 1int } else { 0int };
    assert(summed == hash + byte - k2 * modulus);
    assert(result == shifted - summed + k3 * modulus);
    assert(31 * hash - byte == (k1 - k2 - k3) * modulus + result);
    lemma_fundamental_div_mod_converse(31 * hash - byte, modulus, k1 - k2 - k3, result as int);
}

/// The hash of the string with these bytes.
pub fn hash_bytes(bytes: &[u8]) -> (r: u32)
    ensures
        r == string_hash(bytes@),
{
    let mut hash: u32 = 0;
    if bytes.len() == 0 {
        return hash;
    }
    let ghost stepped = bytes@.skip(1).push(0u8);
    let mut i: usize = 1;
    while i < bytes.len()
        invariant
            1 <= i <= bytes.len(),
            stepped == bytes@.skip(1).push(0u8),
            hash == hash_steps(stepped, i - 1),
        decreases bytes.len() - i,
    {
        let byte = *slice_index_get(bytes, i);
        proof {
            lemma_hash_step(hash, byte);
            assert(stepped[i - 1] == byte);
        }
        hash = hash.wrapping_shl(5).wrapping_sub(hash.wrapping_add(byte as u32));
        i += 1;
    }
    proof {
        lemma_hash_step(hash, 0u8);
        assert(stepped[bytes.len() - 1] == 0u8);
        assert(hash.wrapping_add(0u32) == hash);
    }
    hash = hash.wrapping_shl(5).wrapping_sub(hash);
    hash
}

impl Hash for str {
    open spec fn spec_hash(&self) -> u32 {
        string_hash(self.spec_bytes())
    }

    fn hash(&self) -> (r: u32) {
        let r = hash_bytes(self.as_bytes());
        assert(self.spec_hash() == string_hash(self.spec_bytes()));
        r
    }
}

impl Hash for String {
    open spec fn spec_hash(&self) -> u32 {
        string_hash(vstd::utf8::encode_utf8(self@))
    }

    fn hash(&self) -> (r: u32) {
        self.as_str().hash()
    }
}

} // verus!

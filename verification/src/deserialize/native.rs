use vstd::endian::{endianness, Endian};
use vstd::prelude::*;

verus! {

/// The number that `bytes` spell when the first byte is the least significant.
pub open spec fn little_endian_value(bytes: Seq<u8>) -> nat
    decreases bytes.len(),
{
    if bytes.len() == 0 {
        0
    } else {
        bytes[0] as nat + 256 * little_endian_value(bytes.drop_first())
    }
}

/// The number that `bytes` spell in the byte order of the machine this code
/// runs on.
pub open spec fn native_unsigned(bytes: Seq<u8>) -> nat {
    match endianness() {
        Endian::Little => little_endian_value(bytes),
        Endian::Big => little_endian_value(bytes.reverse()),
    }
}

/// Two to the power of eight times `num_bytes`, for the widths in use.
pub open spec fn width_modulus(num_bytes: nat) -> int {
    if num_bytes == 1 {
        0x100
    } else if num_bytes == 2 {
        0x1_0000
    } else if num_bytes == 4 {
        0x1_0000_0000
    } else {
        0x1_0000_0000_0000_0000
    }
}

/// The number that `bytes` spell in the machine's byte order when read as a
/// two's complement integer of that many bytes.
pub open spec fn native_signed(bytes: Seq<u8>) -> int {
    let unsigned = native_unsigned(bytes) as int;
    let modulus = width_modulus(bytes.len());
    if 2 * unsigned >= modulus {
        unsigned - modulus
    } else {
        unsigned
    }
}

/// `u16::from_ne_bytes`: the two bytes read in the machine's byte order.
#[verifier::external_body]
pub(crate) fn u16_from_native(bytes: [u8; 2]) -> (value: u16)
    ensures
        value as int == native_unsigned(bytes@),
{
    u16::from_ne_bytes(bytes)
}

/// `i16::from_ne_bytes`: the two bytes read in the machine's byte order as a
/// two's complement integer.
#[verifier::external_body]
pub(crate) fn i16_from_native(bytes: [u8; 2]) -> (value: i16)
    ensures
        value as int == native_signed(bytes@),
{
    i16::from_ne_bytes(bytes)
}

/// `u32::from_ne_bytes`: the four bytes read in the machine's byte order.
#[verifier::external_body]
pub(crate) fn u32_from_native(bytes: [u8; 4]) -> (value: u32)
    ensures
        value as int == native_unsigned(bytes@),
{
    u32::from_ne_bytes(bytes)
}

/// `i32::from_ne_bytes`: the four bytes read in the machine's byte order as a
/// two's complement integer.
#[verifier::external_body]
pub(crate) fn i32_from_native(bytes: [u8; 4]) -> (value: i32)
    ensures
        value as int == native_signed(bytes@),
{
    i32::from_ne_bytes(bytes)
}

/// `u64::from_ne_bytes`: the eight bytes read in the machine's byte order.
#[verifier::external_body]
pub(crate) fn u64_from_native(bytes: [u8; 8]) -> (value: u64)
    ensures
        value as int == native_unsigned(bytes@),
{
    u64::from_ne_bytes(bytes)
}

/// `i64::from_ne_bytes`: the eight bytes read in the machine's byte order as
/// a two's complement integer.
#[verifier::external_body]
pub(crate) fn i64_from_native(bytes: [u8; 8]) -> (value: i64)
    ensures
        value as int == native_signed(bytes@),
{
    i64::from_ne_bytes(bytes)
}

/// `usize::from_ne_bytes`: the eight bytes read in the machine's byte order.
/// A `usize` has eight bytes on the machines that this library is for.
#[verifier::external_body]
pub(crate) fn usize_from_native(bytes: [u8; 8]) -> (value: usize)
    ensures
        value as int == native_unsigned(bytes@),
{
    usize::from_ne_bytes(bytes)
}

/// `isize::from_ne_bytes`: the eight bytes read in the machine's byte order
/// as a two's complement integer. An `isize` has eight bytes on the machines
/// that this library is for.
#[verifier::external_body]
pub(crate) fn isize_from_native(bytes: [u8; 8]) -> (value: isize)
    ensures
        value as int == native_signed(bytes@),
{
    isize::from_ne_bytes(bytes)
}

/// `i8::from_ne_bytes`: the byte read as a two's complement integer.
#[verifier::external_body]
pub(crate) fn i8_from_native(bytes: [u8; 1]) -> (value: i8)
    ensures
        value as int == native_signed(bytes@),
{
    i8::from_ne_bytes(bytes)
}

/// A single byte spells itself in either byte order.
pub proof fn lemma_native_single(bytes: Seq<u8>)
    requires
        bytes.len() == 1,
    ensures
        native_unsigned(bytes) == bytes[0],
{
    assert(bytes.reverse() =~= bytes);
    assert(bytes.drop_first().len() == 0);
    reveal_with_fuel(little_endian_value, 2);
}

/// Bytes spell zero exactly when each of them is zero, in either byte order.
pub proof fn lemma_native_zero(bytes: Seq<u8>)
    ensures
        native_unsigned(bytes) == 0 <==> (forall|i: int| 0 <= i < bytes.len() ==> bytes[i] == 0),
{
    lemma_little_endian_zero(bytes);
    lemma_little_endian_zero(bytes.reverse());
    let rev = bytes.reverse();
    if forall|i: int| 0 <= i < bytes.len() ==> bytes[i] == 0 {
        assert forall|i: int| 0 <= i < rev.len() implies rev[i] == 0 by {
            assert(rev[i] == bytes[bytes.len() - 1 - i]);
        }
    }
    if forall|i: int| 0 <= i < rev.len() ==> rev[i] == 0 {
        assert forall|i: int| 0 <= i < bytes.len() implies bytes[i] == 0 by {
            assert(rev[bytes.len() - 1 - i] == bytes[i]);
        }
    }
}

proof fn lemma_little_endian_zero(bytes: Seq<u8>)
    ensures
        little_endian_value(bytes) == 0 <==> (forall|i: int| 0 <= i < bytes.len() ==> bytes[i] == 0),
    decreases bytes.len(),
{
    if bytes.len() > 0 {
        let rest = bytes.drop_first();
        lemma_little_endian_zero(rest);
        if little_endian_value(bytes) == 0 {
            assert forall|i: int| 0 <= i < bytes.len() implies bytes[i] == 0 by {
                if i > 0 {
                    assert(rest[i - 1] == bytes[i]);
                }
            }
        }
        if forall|i: int| 0 <= i < bytes.len() ==> bytes[i] == 0 {
            assert forall|i: int| 0 <= i < rest.len() implies rest[i] == 0 by {
                assert(rest[i] == bytes[i + 1]);
            }
        }
    }
}

} // verus!

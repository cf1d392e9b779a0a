use vstd::prelude::*;

verus! {

/// Whether every bit of `flag` is set in `bitfield`.
#[must_use]
pub fn has_flag(bitfield: u32, flag: u32) -> (r: bool)
    ensures
        r <==> bitfield & flag == flag,
{
    bitfield & flag == flag
}

} // verus!

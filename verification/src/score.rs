//! Scores (distances and similarities) are `f32` values that this library
//! carries as their IEEE-754 binary32 bit patterns, so that the ranking logic
//! can be stated and proved over integers.
use vstd::prelude::*;

verus! {

/// The bit pattern is a NaN: all exponent bits set and a nonzero fraction.
pub open spec fn is_nan(bits: u32) -> bool {
    (bits & 0x7fff_ffffu32) > 0x7f80_0000u32
}

/// The bit pattern is `+0.0` or `-0.0`.
pub open spec fn is_zero(bits: u32) -> bool {
    (bits & 0x7fff_ffffu32) == 0
}

/// The bit pattern is `-0.0`.
pub open spec fn is_negative_zero(bits: u32) -> bool {
    bits == 0x8000_0000u32
}

/// A key whose unsigned order is the IEEE-754 `totalOrder` predicate that
/// `f32::total_cmp` implements: negative values have all bits flipped,
/// non-negative ones get their sign bit set.
pub open spec fn total_key(bits: u32) -> u32 {
    if bits & 0x8000_0000u32 != 0 {
        !bits
    } else {
        bits | 0x8000_0000u32
    }
}

/// IEEE-754 `a <= b` (what `<=` on two `f32` answers): false when either
/// side is NaN, true for the two zeros, and otherwise the numeric order.
pub open spec fn score_le(a: u32, b: u32) -> bool {
    &&& !is_nan(a)
    &&& !is_nan(b)
    &&& (is_zero(a) && is_zero(b)) || total_key(a) <= total_key(b)
}

/// Computes `total_key(bits)`.
pub fn total_order_key(bits: u32) -> (key: u32)
    ensures
        key == total_key(bits),
{
    if bits & 0x8000_0000u32 != 0 {
        !bits
    } else {
        bits | 0x8000_0000u32
    }
}

/// Computes IEEE-754 `a <= b` on two bit patterns.
pub fn score_less_or_equal(a: u32, b: u32) -> (le: bool)
    ensures
        le == score_le(a, b),
{
    let a_nan = (a & 0x7fff_ffffu32) > 0x7f80_0000u32;
    let b_nan = (b & 0x7fff_ffffu32) > 0x7f80_0000u32;
    if a_nan || b_nan {
        return false;
    }
    if (a & 0x7fff_ffffu32) == 0 && (b & 0x7fff_ffffu32) == 0 {
        return true;
    }
    total_order_key(a) <= total_order_key(b)
}

/// Distinct bit patterns have distinct total-order keys.
pub proof fn lemma_total_key_injective(a: u32, b: u32)
    ensures
        total_key(a) == total_key(b) ==> a == b,
{
    assert((if a & 0x8000_0000u32 != 0 { !a } else { a | 0x8000_0000u32 }) == (if b & 0x8000_0000u32
        != 0 { !b } else { b | 0x8000_0000u32 }) ==> a == b) by (bit_vector);
}

/// Away from NaN and `-0.0`, IEEE `<=` is exactly the total order.
pub proof fn lemma_score_le_is_total_order(a: u32, b: u32)
    requires
        !is_nan(a),
        !is_nan(b),
        !is_negative_zero(a),
        !is_negative_zero(b),
    ensures
        score_le(a, b) <==> total_key(a) <= total_key(b),
{
    assert(((a & 0x7fff_ffffu32) == 0 && a != 0x8000_0000u32) ==> a == 0) by (bit_vector);
    assert(((b & 0x7fff_ffffu32) == 0 && b != 0x8000_0000u32) ==> b == 0) by (bit_vector);
}

/// On non-NaN scores IEEE `<=` is a total preorder.
pub proof fn lemma_score_le_total_preorder(a: u32, b: u32, c: u32)
    requires
        !is_nan(a),
        !is_nan(b),
        !is_nan(c),
    ensures
        score_le(a, a),
        score_le(a, b) || score_le(b, a),
        score_le(a, b) && score_le(b, c) ==> score_le(a, c),
{
    assert(!((a & 0x7fff_ffffu32) > 0x7f80_0000u32) && !((b & 0x7fff_ffffu32) > 0x7f80_0000u32)
        && !((c & 0x7fff_ffffu32) > 0x7f80_0000u32) ==> ({
        let ka = if a & 0x8000_0000u32 != 0 { !a } else { a | 0x8000_0000u32 };
        let kb = if b & 0x8000_0000u32 != 0 { !b } else { b | 0x8000_0000u32 };
        let kc = if c & 0x8000_0000u32 != 0 { !c } else { c | 0x8000_0000u32 };
        let za = (a & 0x7fff_ffffu32) == 0;
        let zb = (b & 0x7fff_ffffu32) == 0;
        let zc = (c & 0x7fff_ffffu32) == 0;
        &&& ((za && zb) || ka <= kb) || ((zb && za) || kb <= ka)
        &&& (((za && zb) || ka <= kb) && ((zb && zc) || kb <= kc)) ==> ((za && zc) || ka <= kc)
    })) by (bit_vector);
}

} // verus!

//! The total order on scalar bit patterns that nearest selection and
//! all-hits sorting go by.
use vstd::prelude::*;

verus! {

/// The position of an `f32` bit pattern in the IEEE 754 total order
/// (`f32::total_cmp`), as an unsigned integer: negative values reverse, and
/// non-negative values come after all negative ones.
pub open spec fn spec_key32(bits: u32) -> u32 {
    if bits >= 0x8000_0000 {
        (0xFFFF_FFFFu32 - bits) as u32
    } else {
        (bits + 0x8000_0000u32) as u32
    }
}

/// The position of an `f32` bit pattern in the IEEE 754 total order.
pub fn total_key_f32(bits: u32) -> (k: u32)
    ensures
        k == spec_key32(bits),
{
    if bits >= 0x8000_0000 {
        0xFFFF_FFFFu32 - bits
    } else {
        bits + 0x8000_0000u32
    }
}

/// The position of an `f64` bit pattern in the IEEE 754 total order
/// (`f64::total_cmp`), as an unsigned integer.
pub open spec fn spec_key64(bits: u64) -> u64 {
    if bits >= 0x8000_0000_0000_0000 {
        (0xFFFF_FFFF_FFFF_FFFFu64 - bits) as u64
    } else {
        (bits + 0x8000_0000_0000_0000u64) as u64
    }
}

/// The position of an `f64` bit pattern in the IEEE 754 total order.
pub fn total_key_f64(bits: u64) -> (k: u64)
    ensures
        k == spec_key64(bits),
{
    if bits >= 0x8000_0000_0000_0000 {
        0xFFFF_FFFF_FFFF_FFFFu64 - bits
    } else {
        bits + 0x8000_0000_0000_0000u64
    }
}

/// The total-order keys are a bijection: distinct bit patterns get distinct
/// keys, so comparing keys is a total order on the patterns themselves.
pub proof fn lemma_key32_injective(a: u32, b: u32)
    ensures
        spec_key32(a) == spec_key32(b) <==> a == b,
{
}

/// The total-order keys of `f64` patterns are a bijection as well.
pub proof fn lemma_key64_injective(a: u64, b: u64)
    ensures
        spec_key64(a) == spec_key64(b) <==> a == b,
{
}

/// `a` comes before `b` in the IEEE 754 total order on `f32` bit patterns
/// (`f32::total_cmp`): a set sign bit (negative) comes first; among
/// non-negative patterns the larger magnitude (the low 31 bits) comes later,
/// among negative ones it comes earlier. For non-negative finite values this
/// is the order of the numbers themselves.
pub open spec fn ieee_before32(a: u32, b: u32) -> bool {
    let neg_a = a >= 0x8000_0000;
    let neg_b = b >= 0x8000_0000;
    let mag_a: int = if neg_a { a - 0x8000_0000 } else { a as int };
    let mag_b: int = if neg_b { b - 0x8000_0000 } else { b as int };
    if neg_a != neg_b {
        neg_a
    } else if neg_a {
        mag_b < mag_a
    } else {
        mag_a < mag_b
    }
}

/// `a` comes before `b` in the IEEE 754 total order on `f64` bit patterns
/// (`f64::total_cmp`), by sign bit, then by magnitude (the low 63 bits) as for
/// [`ieee_before32`].
pub open spec fn ieee_before64(a: u64, b: u64) -> bool {
    let neg_a = a >= 0x8000_0000_0000_0000;
    let neg_b = b >= 0x8000_0000_0000_0000;
    let mag_a: int = if neg_a { a - 0x8000_0000_0000_0000 } else { a as int };
    let mag_b: int = if neg_b { b - 0x8000_0000_0000_0000 } else { b as int };
    if neg_a != neg_b {
        neg_a
    } else if neg_a {
        mag_b < mag_a
    } else {
        mag_a < mag_b
    }
}

/// The `f32` key orders bit patterns exactly as the IEEE 754 total order
/// does: one pattern's key is below another's when, and only when, it comes
/// first in `f32::total_cmp`.
pub proof fn lemma_key32_is_ieee_total_order(a: u32, b: u32)
    ensures
        spec_key32(a) < spec_key32(b) <==> ieee_before32(a, b),
{
}

/// The `f64` key orders bit patterns exactly as `f64::total_cmp` does.
pub proof fn lemma_key64_is_ieee_total_order(a: u64, b: u64)
    ensures
        spec_key64(a) < spec_key64(b) <==> ieee_before64(a, b),
{
}

} // verus!

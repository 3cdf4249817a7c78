//! Ordering of IEEE-754 single-precision values represented by their raw bit
//! patterns.
//!
//! Similarity scores travel through the library as the bit patterns of the
//! single-precision values the scoring code produced. Comparing two scores is
//! then pure integer work: outside of NaN, the standard's ordering of two
//! encoded values agrees with the ordering of a sign-adjusted integer key of
//! their bit patterns, and a NaN compares false against everything.

use vstd::prelude::*;

verus! {

/// Mask of the exponent field of a single-precision bit pattern.
pub const F32_EXP_MASK: u32 = 0x7F80_0000;

/// Mask of the fraction field of a single-precision bit pattern.
pub const F32_FRAC_MASK: u32 = 0x007F_FFFF;

/// Mask of the sign bit of a single-precision bit pattern.
pub const F32_SIGN_MASK: u32 = 0x8000_0000;

/// Whether a single-precision bit pattern encodes a NaN: exponent field all
/// ones and a non-zero fraction field.
pub open spec fn f32_bits_is_nan(bits: u32) -> bool {
    bits & F32_EXP_MASK == F32_EXP_MASK && bits & F32_FRAC_MASK != 0
}

/// A sign-adjusted key that orders non-NaN single-precision bit patterns the
/// way the encoded values are ordered. Both zero encodings map to the same
/// key, negative values map below it in reversed magnitude order, and
/// positive values map above it in magnitude order.
pub open spec fn f32_bits_key(bits: u32) -> int {
    if bits & F32_SIGN_MASK != 0 {
        0x8000_0000 - (bits & 0x7FFF_FFFF)
    } else {
        0x8000_0000 + bits
    }
}

/// The `<=` relation of the encoded values: false whenever either side is a
/// NaN, otherwise the ordering of the keys.
pub open spec fn f32_bits_le(a: u32, b: u32) -> bool {
    &&& !f32_bits_is_nan(a)
    &&& !f32_bits_is_nan(b)
    &&& f32_bits_key(a) <= f32_bits_key(b)
}

/// Whether a bit pattern encodes a NaN.
pub fn f32_is_nan_bits(bits: u32) -> (r: bool)
    ensures
        r == f32_bits_is_nan(bits),
{
    (bits & F32_EXP_MASK) == F32_EXP_MASK && (bits & F32_FRAC_MASK) != 0
}

/// Compares two encoded single-precision values: true exactly when neither is
/// a NaN and the first is at most the second.
pub fn f32_le_bits(a: u32, b: u32) -> (r: bool)
    ensures
        r == f32_bits_le(a, b),
{
    if f32_is_nan_bits(a) || f32_is_nan_bits(b) {
        return false;
    }
    let ka = f32_key_bits(a);
    let kb = f32_key_bits(b);
    ka <= kb
}

/// Computes the ordering key of a bit pattern.
fn f32_key_bits(bits: u32) -> (r: u32)
    ensures
        r == f32_bits_key(bits),
{
    let magnitude = bits & 0x7FFF_FFFF;
    assert(bits & 0x7FFF_FFFF <= 0x7FFF_FFFF) by (bit_vector);
    if (bits & F32_SIGN_MASK) != 0 {
        0x8000_0000u32 - magnitude
    } else {
        assert(bits & 0x8000_0000 == 0 ==> bits & 0x7FFF_FFFF == bits) by (bit_vector);
        0x8000_0000u32 + magnitude
    }
}

} // verus!

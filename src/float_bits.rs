use vstd::prelude::*;

verus! {

// Binary64 values are carried as their IEEE-754 bit patterns: sign in bit 63,
// an 11-bit biased exponent in bits 52..63, a 52-bit fraction below.

/// The bit pattern of 1.0.
pub const F64_ONE_BITS: u64 = 0x3ff0_0000_0000_0000;

/// All exponent bits set and a non-zero fraction: a NaN.
pub open spec fn f64_is_nan(b: u64) -> bool {
    (b >> 52u64) & 0x7ffu64 == 0x7ffu64 && b & 0x000f_ffff_ffff_ffffu64 != 0
}

/// Positive or negative zero.
pub open spec fn f64_is_zero(b: u64) -> bool {
    b & 0x7fff_ffff_ffff_ffffu64 == 0
}

/// A key whose unsigned order is the numeric order of the non-NaN values, with
/// negative zero just below positive zero.
pub open spec fn f64_order_key(b: u64) -> u64 {
    if b >> 63u64 == 1 {
        !b
    } else {
        b | 0x8000_0000_0000_0000u64
    }
}

/// IEEE-754 `a >= b`: false when either side is NaN, and the two zeros are equal.
pub open spec fn f64_ge(a: u64, b: u64) -> bool {
    &&& !f64_is_nan(a)
    &&& !f64_is_nan(b)
    &&& (f64_order_key(a) >= f64_order_key(b) || (f64_is_zero(a) && f64_is_zero(b)))
}

/// Compares two binary64 values, given by their bit patterns, as `a >= b` does.
pub fn ge_bits(a: u64, b: u64) -> (r: bool)
    ensures
        r == f64_ge(a, b),
{
    let a_nan = (a >> 52u64) & 0x7ffu64 == 0x7ffu64 && a & 0x000f_ffff_ffff_ffffu64 != 0;
    let b_nan = (b >> 52u64) & 0x7ffu64 == 0x7ffu64 && b & 0x000f_ffff_ffff_ffffu64 != 0;
    if a_nan || b_nan {
        return false;
    }
    let ka: u64 = if a >> 63u64 == 1 { !a } else { a | 0x8000_0000_0000_0000u64 };
    let kb: u64 = if b >> 63u64 == 1 { !b } else { b | 0x8000_0000_0000_0000u64 };
    ka >= kb || (a & 0x7fff_ffff_ffff_ffffu64 == 0 && b & 0x7fff_ffff_ffff_ffffu64 == 0)
}

} // verus!

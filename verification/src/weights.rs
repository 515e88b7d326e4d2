use vstd::prelude::*;

use crate::node::is_nan_bits;
use rustc_apfloat::Float;

verus! {

/// The bit pattern of the zero weight, the empty path's total.
pub const ZERO_WEIGHT_BITS: u64 = 0;

/// The sign-stripped magnitude of an IEEE 754 binary64 bit pattern.
pub const FLOAT_MAGNITUDE_MASK: u64 = 0x7FFF_FFFF_FFFF_FFFF;

/// The IEEE 754 double-precision sum of two weights, by bit pattern,
/// rounding to nearest with ties to even: a function of the two bit
/// patterns alone.
pub uninterp spec fn add_bits(a: u64, b: u64) -> u64;

/// The IEEE 754 `<` on binary64 bit patterns: false whenever either
/// operand is a NaN; otherwise, with the sign split off, magnitudes order
/// as plain integers, negatives order reversed, every negative sits below
/// every non-negative, and the two zeroes are equal.
pub open spec fn lt_bits(a: u64, b: u64) -> bool {
    if is_nan_bits(a) || is_nan_bits(b) {
        false
    } else {
        let ma = a & FLOAT_MAGNITUDE_MASK;
        let mb = b & FLOAT_MAGNITUDE_MASK;
        let neg_a = a >= 0x8000_0000_0000_0000;
        let neg_b = b >= 0x8000_0000_0000_0000;
        if neg_a && neg_b {
            mb < ma
        } else if !neg_a && !neg_b {
            ma < mb
        } else if neg_a && !neg_b {
            !(ma == 0 && mb == 0)
        } else {
            false
        }
    }
}

/// Relies on rustc_apfloat's `Double` (`add_r` through the `+` operator):
/// IEEE 754 binary64 addition on bit patterns, rounding to nearest, ties
/// to even. The sum depends on the two bit patterns alone.
#[verifier::external_body]
pub fn weight_add(a: u64, b: u64) -> (r: u64)
    ensures
        r == add_bits(a, b),
{
    let x = rustc_apfloat::ieee::Double::from_bits(a as u128);
    let y = rustc_apfloat::ieee::Double::from_bits(b as u128);
    (x + y).value.to_bits() as u64
}

/// Relies on rustc_apfloat's `Double::partial_cmp`: the IEEE 754 partial
/// order on binary64 bit patterns, under which a NaN is below nothing;
/// its outcome is exactly the integer-arithmetic statement `lt_bits`.
#[verifier::external_body]
pub fn weight_lt(a: u64, b: u64) -> (r: bool)
    ensures
        r == lt_bits(a, b),
{
    let x = rustc_apfloat::ieee::Double::from_bits(a as u128);
    let y = rustc_apfloat::ieee::Double::from_bits(b as u128);
    matches!(x.partial_cmp(&y), Some(core::cmp::Ordering::Less))
}

} // verus!

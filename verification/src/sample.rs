//! Samples as IEEE-754 binary64 bit patterns, and their ordering.
//!
//! The tracker never does arithmetic on a sample; all it needs is the
//! strict `<` comparison of the values the bits encode.  That ordering is
//! defined here as a spec function over the raw bits: a comparison involving
//! a NaN is always false, the two zeroes compare equal, negative values order
//! by descending magnitude bits and positive values by ascending magnitude
//! bits.

use vstd::prelude::*;

verus! {

/// Bit pattern of positive infinity, the sentinel stored in buffer slots
/// that no sample has reached yet.
pub const INF_BITS: u64 = 0x7FF0_0000_0000_0000;

/// The sign bit of a binary64 pattern.
pub const SIGN_BIT: u64 = 0x8000_0000_0000_0000;

/// One sample of the stream: the bits of an IEEE-754 binary64 value.
#[derive(Clone, Copy, Debug, PartialEq, Eq, Structural)]
pub struct Sample {
    pub bits: u64,
}

/// The magnitude part of a pattern: everything below the sign bit.
pub open spec fn mag(b: u64) -> u64 {
    b % SIGN_BIT
}

/// Whether the sign bit is set.
pub open spec fn is_neg(b: u64) -> bool {
    b >= SIGN_BIT
}

/// Whether the pattern encodes a NaN: exponent all ones and a non-zero
/// mantissa, i.e. a magnitude strictly above that of infinity.
pub open spec fn is_nan(b: u64) -> bool {
    mag(b) > INF_BITS
}

/// Whether the pattern encodes a zero (of either sign).
pub open spec fn is_zero_val(b: u64) -> bool {
    mag(b) == 0
}

/// The strict `<` ordering of the encoded values.
///
/// False whenever either side is a NaN; false between the two zeroes; a
/// negative value is below any positive one; within one sign the magnitude
/// bits order the values, descending for negatives and ascending for
/// positives.
pub open spec fn lt_bits(a: u64, b: u64) -> bool {
    &&& !is_nan(a)
    &&& !is_nan(b)
    &&& !(is_zero_val(a) && is_zero_val(b))
    &&& if is_neg(a) != is_neg(b) {
        is_neg(a)
    } else if is_neg(a) {
        mag(a) > mag(b)
    } else {
        mag(a) < mag(b)
    }
}

/// Executable form of `lt_bits`.
pub(crate) fn val_lt(a: u64, b: u64) -> (r: bool)
    ensures
        r == lt_bits(a, b),
{
    let mag_a: u64 = a % SIGN_BIT;
    let mag_b: u64 = b % SIGN_BIT;
    if mag_a > INF_BITS || mag_b > INF_BITS {
        false
    } else if mag_a == 0 && mag_b == 0 {
        false
    } else {
        let neg_a: bool = a >= SIGN_BIT;
        let neg_b: bool = b >= SIGN_BIT;
        if neg_a != neg_b {
            neg_a
        } else if neg_a {
            mag_a > mag_b
        } else {
            mag_a < mag_b
        }
    }
}

/// Executable form of `is_nan`.
pub(crate) fn val_is_nan(b: u64) -> (r: bool)
    ensures
        r == is_nan(b),
{
    (b % SIGN_BIT) > INF_BITS
}

impl Sample {
    /// Builds a sample from the raw bits of a binary64 value.
    pub fn from_bits(bits: u64) -> (s: Sample)
        ensures
            s.bits == bits,
    {
        Sample { bits }
    }

    /// Strict `<` comparison of two samples.
    pub fn is_lt(&self, other: &Sample) -> (r: bool)
        ensures
            r == lt_bits(self.bits, other.bits),
    {
        val_lt(self.bits, other.bits)
    }
}

/// The ordering never puts a value below itself.
pub proof fn lemma_lt_irrefl(a: u64)
    ensures
        !lt_bits(a, a),
{
}

/// The ordering is transitive.
pub proof fn lemma_lt_trans(a: u64, b: u64, c: u64)
    requires
        lt_bits(a, b),
        lt_bits(b, c),
    ensures
        lt_bits(a, c),
{
}

/// From `a < b` and `b <= c` (for a non-NaN `c`) follows `a < c`.
pub proof fn lemma_lt_le_trans(a: u64, b: u64, c: u64)
    requires
        lt_bits(a, b),
        !lt_bits(c, b),
        !is_nan(c),
    ensures
        lt_bits(a, c),
{
}

/// The sentinel pattern is not a NaN.
pub proof fn lemma_inf_not_nan()
    ensures
        !is_nan(INF_BITS),
{
    assert(0x7FF0_0000_0000_0000u64 % 0x8000_0000_0000_0000u64 == 0x7FF0_0000_0000_0000u64)
        by (bit_vector);
}

/// A non-NaN pattern that is not below positive infinity is positive
/// infinity itself.
pub proof fn lemma_inf_top(a: u64)
    requires
        !is_nan(a),
        !lt_bits(a, INF_BITS),
    ensures
        a == INF_BITS,
{
    assert(a < 0x8000_0000_0000_0000u64 ==> a % 0x8000_0000_0000_0000u64 == a) by (bit_vector);
}

} // verus!

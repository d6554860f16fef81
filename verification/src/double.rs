//! Double-precision numbers as IEEE-754 bit patterns.
//!
//! A `u64` here is the bit pattern of a binary64 value: one sign bit, eleven
//! exponent bits, fifty-two fraction bits. Among patterns without the sign bit
//! the order of the integers is the order of the numbers they encode, with the
//! not-a-number patterns above positive infinity; among patterns with the sign
//! bit it is the reverse. Comparisons in this module rest on that fact and
//! never decode a pattern.

use std::cmp::Ordering;
use vstd::prelude::*;

verus! {

/// The sign bit of a pattern.
pub const SIGN_BIT: u64 = 0x8000_0000_0000_0000;

/// The pattern of positive infinity. Every pattern whose magnitude lies above
/// it is not a number.
pub const INFINITY_BITS: u64 = 0x7FF0_0000_0000_0000;

/// The pattern of `1.0`.
pub const ONE_BITS: u64 = 0x3FF0_0000_0000_0000;

/// The pattern of positive zero.
pub const ZERO_BITS: u64 = 0;

/// Whether the sign bit is set.
pub open spec fn is_negative(bits: u64) -> bool {
    bits >= SIGN_BIT
}

/// The pattern with its sign bit cleared: the pattern of the absolute value.
pub open spec fn magnitude(bits: u64) -> u64 {
    if bits >= SIGN_BIT {
        (bits - SIGN_BIT) as u64
    } else {
        bits
    }
}

/// Whether the pattern encodes no number.
pub open spec fn is_nan(bits: u64) -> bool {
    magnitude(bits) > INFINITY_BITS
}

/// Whether the pattern encodes a number from zero to one, both included, with
/// the sign bit clear.
pub open spec fn is_probability(bits: u64) -> bool {
    bits <= ONE_BITS
}

/// Whether the absolute value of `value` is at least `threshold`, as the
/// comparison of two doubles decides it: false as soon as either side is not
/// a number, true for every number where the threshold is negative or a zero.
pub open spec fn magnitude_reaches(value: u64, threshold: u64) -> bool {
    &&& !is_nan(value)
    &&& !is_nan(threshold)
    &&& (is_negative(threshold) || magnitude(value) >= threshold)
}

/// The pattern limited to the probabilities. A number from zero to one stays
/// as it is, but for a zero with the sign bit, which becomes the zero without
/// it. A number above one becomes one, and so does a pattern that is no
/// number. A number below zero becomes zero.
pub open spec fn clamped_to_one(bits: u64) -> u64 {
    if is_nan(bits) {
        ONE_BITS
    } else if bits >= SIGN_BIT {
        ZERO_BITS
    } else if bits <= ONE_BITS {
        bits
    } else {
        ONE_BITS
    }
}

/// A key that orders the patterns as their numbers: of two numbers the
/// smaller has the smaller key, and the two zeros have neighbouring keys, that
/// of the zero with the sign bit first. The patterns that are no numbers have
/// the keys beyond those of the infinities.
pub open spec fn order_key(bits: u64) -> u64 {
    if bits >= SIGN_BIT {
        (u64::MAX - bits) as u64
    } else {
        (bits + SIGN_BIT) as u64
    }
}

/// The place of a pattern's number in the order of all numbers: a larger
/// number has a larger place, and the two zeros share the place zero. It
/// means nothing for a pattern that is no number.
pub open spec fn ordinal(bits: u64) -> int {
    if bits >= SIGN_BIT {
        -((bits - SIGN_BIT) as int)
    } else {
        bits as int
    }
}

/// Whether `a` is less than `b`, as the comparison of two doubles decides it:
/// false as soon as either side is not a number.
pub open spec fn is_less(a: u64, b: u64) -> bool {
    !is_nan(a) && !is_nan(b) && ordinal(a) < ordinal(b)
}

/// Whether `a` equals `b`, as the comparison of two doubles decides it: false
/// as soon as either side is not a number, true for the two zeros.
pub open spec fn is_equal(a: u64, b: u64) -> bool {
    !is_nan(a) && !is_nan(b) && ordinal(a) == ordinal(b)
}

/// How `a` stands to `b`, as the comparison of two doubles decides it:
/// nothing as soon as either side is not a number.
pub open spec fn comparison(a: u64, b: u64) -> Option<Ordering> {
    if is_nan(a) || is_nan(b) {
        None
    } else if ordinal(a) < ordinal(b) {
        Some(Ordering::Less)
    } else if ordinal(a) == ordinal(b) {
        Some(Ordering::Equal)
    } else {
        Some(Ordering::Greater)
    }
}

/// Clears the sign bit.
pub fn abs_bits(bits: u64) -> (r: u64)
    ensures
        r == magnitude(bits),
{
    if bits >= SIGN_BIT {
        bits - SIGN_BIT
    } else {
        bits
    }
}

/// Tells whether the pattern encodes no number.
pub fn is_nan_bits(bits: u64) -> (r: bool)
    ensures
        r == is_nan(bits),
{
    abs_bits(bits) > INFINITY_BITS
}

/// Decides `|value| >= threshold` on bit patterns.
pub fn abs_at_least(value: u64, threshold: u64) -> (r: bool)
    ensures
        r == magnitude_reaches(value, threshold),
{
    if is_nan_bits(value) || is_nan_bits(threshold) {
        false
    } else if threshold >= SIGN_BIT {
        true
    } else {
        abs_bits(value) >= threshold
    }
}

/// The place of the pattern's number among all numbers.
pub fn ordinal_of(bits: u64) -> (r: i128)
    ensures
        r == ordinal(bits),
{
    if bits >= SIGN_BIT {
        -((bits - SIGN_BIT) as i128)
    } else {
        bits as i128
    }
}

/// Decides `a < b` on bit patterns.
pub fn less_than(a: u64, b: u64) -> (r: bool)
    ensures
        r == is_less(a, b),
{
    !is_nan_bits(a) && !is_nan_bits(b) && ordinal_of(a) < ordinal_of(b)
}

/// Decides `a == b` on bit patterns.
pub fn equal_to(a: u64, b: u64) -> (r: bool)
    ensures
        r == is_equal(a, b),
{
    !is_nan_bits(a) && !is_nan_bits(b) && ordinal_of(a) == ordinal_of(b)
}

/// Compares two bit patterns as doubles.
pub fn compare(a: u64, b: u64) -> (r: Option<Ordering>)
    ensures
        r == comparison(a, b),
{
    if is_nan_bits(a) || is_nan_bits(b) {
        None
    } else {
        let left = ordinal_of(a);
        let right = ordinal_of(b);
        if left < right {
            Some(Ordering::Less)
        } else if left == right {
            Some(Ordering::Equal)
        } else {
            Some(Ordering::Greater)
        }
    }
}

/// Limits a pattern to the probabilities.
pub fn min_with_one(bits: u64) -> (r: u64)
    ensures
        r == clamped_to_one(bits),
        is_probability(r),
{
    if is_nan_bits(bits) {
        ONE_BITS
    } else if bits >= SIGN_BIT {
        ZERO_BITS
    } else if bits <= ONE_BITS {
        bits
    } else {
        ONE_BITS
    }
}

/// The key that orders a pattern among all patterns.
pub fn order_key_of(bits: u64) -> (r: u64)
    ensures
        r == order_key(bits),
{
    if bits >= SIGN_BIT {
        u64::MAX - bits
    } else {
        bits + SIGN_BIT
    }
}

/// The keys follow the numbers: the smaller of two numbers has the smaller
/// key, and a number whose key is not the larger one is not the larger
/// number.
pub proof fn lemma_order_key_follows_numbers(a: u64, b: u64)
    ensures
        is_less(a, b) ==> order_key(a) < order_key(b),
        !is_nan(a) && !is_nan(b) && order_key(a) <= order_key(b) ==> !is_less(b, a),
        order_key(a) == order_key(b) ==> a == b,
        is_probability(a) && is_probability(b) ==> (order_key(a) <= order_key(b) <==> a <= b),
{
}

/// Every number reaches the threshold zero, and nothing else does.
pub proof fn lemma_reaches_zero(value: u64)
    ensures
        magnitude_reaches(value, ZERO_BITS) <==> !is_nan(value),
{
}

} // verus!

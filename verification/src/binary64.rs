//! The order of binary64 values, read off their bit patterns.
//!
//! A pattern is a sign bit followed by a 63-bit magnitude. Magnitudes above
//! that of infinity are NaNs. Among the other values, the order of the reals
//! they denote is the order of their signed magnitudes; the two zeros are
//! equal, and a NaN is neither below nor above anything.

use vstd::prelude::*;

verus! {

/// The sign bit.
pub const SIGN: u64 = 0x8000_0000_0000_0000;

/// The pattern of positive infinity, the largest magnitude that is a number.
pub const INFINITY: u64 = 0x7FF0_0000_0000_0000;

/// The pattern without its sign bit.
pub open spec fn magnitude(bits: u64) -> int {
    if bits >= SIGN {
        bits - SIGN
    } else {
        bits as int
    }
}

/// Whether the pattern is a NaN.
pub open spec fn is_nan(bits: u64) -> bool {
    magnitude(bits) > INFINITY
}

/// The signed magnitude: negative patterns count downwards from zero.
pub open spec fn rank(bits: u64) -> int {
    if bits >= SIGN {
        -magnitude(bits)
    } else {
        magnitude(bits)
    }
}

/// `a < b` as binary64 values.
pub open spec fn less(a: u64, b: u64) -> bool {
    !is_nan(a) && !is_nan(b) && rank(a) < rank(b)
}

/// `a <= b` as binary64 values.
pub open spec fn at_most(a: u64, b: u64) -> bool {
    !is_nan(a) && !is_nan(b) && rank(a) <= rank(b)
}

fn nan(bits: u64) -> (r: bool)
    ensures
        r == is_nan(bits),
{
    if bits >= SIGN {
        bits - SIGN > INFINITY
    } else {
        bits > INFINITY
    }
}

/// Compares two binary64 values by their bit patterns: `a < b`.
pub fn lt(a: u64, b: u64) -> (r: bool)
    ensures
        r == less(a, b),
{
    if nan(a) || nan(b) {
        false
    } else if a >= SIGN {
        if b >= SIGN {
            a > b
        } else {
            a > SIGN || b > 0
        }
    } else {
        b < SIGN && a < b
    }
}

/// Compares two binary64 values by their bit patterns: `a <= b`.
pub fn le(a: u64, b: u64) -> (r: bool)
    ensures
        r == at_most(a, b),
{
    if nan(a) || nan(b) {
        false
    } else if a >= SIGN {
        b < SIGN || a >= b
    } else {
        if b >= SIGN {
            a == 0 && b == SIGN
        } else {
            a <= b
        }
    }
}

/// The order is strict: nothing is below itself, and below is transitive.
/// Of two numbers, one is below the other or they are equal. A NaN is
/// unordered, and the sign of a zero does not count.
pub proof fn lemma_less_is_strict_order(a: u64, b: u64, c: u64)
    ensures
        !less(a, a),
        less(a, b) ==> !less(b, a),
        less(a, b) && less(b, c) ==> less(a, c),
        !is_nan(a) && !is_nan(b) ==> (at_most(a, b) <==> !less(b, a)),
        at_most(a, b) <==> less(a, b) || (!is_nan(a) && !is_nan(b) && rank(a) == rank(b)),
        is_nan(a) ==> !less(a, b) && !less(b, a) && !at_most(a, b) && !at_most(b, a),
        !less(0, SIGN) && !less(SIGN, 0) && at_most(0, SIGN) && at_most(SIGN, 0),
{
}

} // verus!

//! Order of double-precision numbers held as bit patterns.
//!
//! A pattern is a sign bit above a 63-bit magnitude. Magnitudes above
//! `DOUBLE_INFINITY` are not numbers; all others are ordered as their
//! magnitudes are, reversed where the sign bit is set, with the two zeros equal.

use vstd::prelude::*;

verus! {

/// The sign bit.
pub const DOUBLE_SIGN: u64 = 0x8000_0000_0000_0000;

/// The pattern of positive infinity.
pub const DOUBLE_INFINITY: u64 = 0x7ff0_0000_0000_0000;

/// The pattern without its sign bit.
pub open spec fn double_magnitude(bits: u64) -> int {
    if bits >= DOUBLE_SIGN {
        bits - DOUBLE_SIGN
    } else {
        bits as int
    }
}

/// Whether the pattern is not a number.
pub open spec fn double_nan(bits: u64) -> bool {
    double_magnitude(bits) > DOUBLE_INFINITY
}

/// Position of a number in the order of all numbers.
pub open spec fn double_rank(bits: u64) -> int {
    if bits >= DOUBLE_SIGN {
        -double_magnitude(bits)
    } else {
        double_magnitude(bits)
    }
}

/// `a < b` as numbers: never true where one of them is not a number.
pub open spec fn double_less(a: u64, b: u64) -> bool {
    !double_nan(a) && !double_nan(b) && double_rank(a) < double_rank(b)
}

/// `a <= b` as numbers: never true where one of them is not a number.
pub open spec fn double_at_most(a: u64, b: u64) -> bool {
    !double_nan(a) && !double_nan(b) && double_rank(a) <= double_rank(b)
}

fn is_double_nan(bits: u64) -> (r: bool)
    ensures
        r == double_nan(bits),
{
    let m: u64 = if bits >= DOUBLE_SIGN {
        bits - DOUBLE_SIGN
    } else {
        bits
    };
    m > DOUBLE_INFINITY
}

/// `a < b` as numbers.
pub fn is_double_less(a: u64, b: u64) -> (r: bool)
    ensures
        r == double_less(a, b),
{
    if is_double_nan(a) || is_double_nan(b) {
        return false;
    }
    if a >= DOUBLE_SIGN {
        if b >= DOUBLE_SIGN {
            b < a
        } else {
            a != DOUBLE_SIGN || b != 0
        }
    } else {
        b < DOUBLE_SIGN && a < b
    }
}

/// `a <= b` as numbers.
pub fn is_double_at_most(a: u64, b: u64) -> (r: bool)
    ensures
        r == double_at_most(a, b),
{
    if is_double_nan(a) || is_double_nan(b) {
        return false;
    }
    !is_double_less(b, a)
}

/// How patterns are ordered, told by the patterns themselves: patterns without
/// the sign bit are ordered as whole numbers are, those with it the other way
/// round and below the ones without, and the two zeros are equal. A pattern
/// above that of infinity, apart from the sign bit, is below, above and equal
/// to nothing.
pub proof fn double_order_by_patterns(a: u64, b: u64)
    ensures
        double_nan(a) <==> 0x7ff0_0000_0000_0000 < a < 0x8000_0000_0000_0000
            || 0xfff0_0000_0000_0000 < a,
        double_nan(a) || double_nan(b) ==> !double_less(a, b) && !double_at_most(a, b),
        !double_nan(a) && !double_nan(b) ==> {
            &&& a < 0x8000_0000_0000_0000 && b < 0x8000_0000_0000_0000 ==> (double_less(a, b)
                <==> a < b) && (double_at_most(a, b) <==> a <= b)
            &&& a >= 0x8000_0000_0000_0000 && b >= 0x8000_0000_0000_0000 ==> (double_less(a, b)
                <==> b < a) && (double_at_most(a, b) <==> b <= a)
            &&& a >= 0x8000_0000_0000_0000 && b < 0x8000_0000_0000_0000 ==> double_at_most(a, b)
                && (double_less(a, b) <==> a > 0x8000_0000_0000_0000 || b > 0)
            &&& a < 0x8000_0000_0000_0000 && b >= 0x8000_0000_0000_0000 ==> !double_less(a, b) && (
            double_at_most(a, b) <==> a == 0 && b == 0x8000_0000_0000_0000)
        },
{
}

} // verus!

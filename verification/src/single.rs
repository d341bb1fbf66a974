//! Order and sign of single-precision numbers held as bit patterns.
//!
//! A pattern is a sign bit above a 31-bit magnitude. Magnitudes above
//! `INFINITY_BITS` are not numbers; all others are ordered as their
//! magnitudes are, reversed where the sign bit is set, with the two zeros equal.

use vstd::prelude::*;

verus! {

/// The sign bit.
pub const SIGN_BIT: u32 = 0x8000_0000;

/// The pattern of positive infinity.
pub const INFINITY_BITS: u32 = 0x7f80_0000;

/// The pattern of negative infinity.
pub const NEG_INFINITY_BITS: u32 = 0xff80_0000;

/// The pattern without its sign bit.
pub open spec fn magnitude(bits: u32) -> int {
    if bits >= SIGN_BIT {
        bits - SIGN_BIT
    } else {
        bits as int
    }
}

/// Whether the pattern is not a number.
pub open spec fn nan(bits: u32) -> bool {
    magnitude(bits) > INFINITY_BITS
}

/// Position of a number in the order of all numbers.
pub open spec fn rank(bits: u32) -> int {
    if bits >= SIGN_BIT {
        -magnitude(bits)
    } else {
        magnitude(bits)
    }
}

/// `a < b` as numbers: never true where one of them is not a number.
pub open spec fn less(a: u32, b: u32) -> bool {
    !nan(a) && !nan(b) && rank(a) < rank(b)
}

/// `a <= b` as numbers: never true where one of them is not a number.
pub open spec fn at_most(a: u32, b: u32) -> bool {
    !nan(a) && !nan(b) && rank(a) <= rank(b)
}

/// Whether the pattern is not a number.
pub fn is_nan(bits: u32) -> (r: bool)
    ensures
        r == nan(bits),
{
    let m: u32 = if bits >= SIGN_BIT {
        bits - SIGN_BIT
    } else {
        bits
    };
    m > INFINITY_BITS
}

/// `a < b` as numbers.
pub fn is_less(a: u32, b: u32) -> (r: bool)
    ensures
        r == less(a, b),
{
    if is_nan(a) || is_nan(b) {
        return false;
    }
    if a >= SIGN_BIT {
        if b >= SIGN_BIT {
            b < a
        } else {
            a != SIGN_BIT || b != 0
        }
    } else {
        b < SIGN_BIT && a < b
    }
}

/// `a <= b` as numbers.
pub fn is_at_most(a: u32, b: u32) -> (r: bool)
    ensures
        r == at_most(a, b),
{
    if is_nan(a) || is_nan(b) {
        return false;
    }
    !is_less(b, a)
}

/// The same number with the opposite sign.
pub open spec fn opposite(bits: u32) -> u32 {
    if bits >= SIGN_BIT {
        (bits - SIGN_BIT) as u32
    } else {
        (bits + SIGN_BIT) as u32
    }
}

/// The same number with the opposite sign.
pub fn negate(bits: u32) -> (r: u32)
    ensures
        r == opposite(bits),
{
    if bits >= SIGN_BIT {
        bits - SIGN_BIT
    } else {
        bits + SIGN_BIT
    }
}

/// Among numbers, the order is total and transitive, and changing the sign
/// reverses it; a pattern that is not a number is unordered with everything.
pub proof fn order_of_numbers(a: u32, b: u32, c: u32)
    ensures
        !less(a, a),
        less(a, b) && less(b, c) ==> less(a, c),
        at_most(a, b) && at_most(b, c) ==> at_most(a, c),
        !nan(a) && !nan(b) ==> (less(a, b) <==> !at_most(b, a)),
        nan(a) ==> !less(a, b) && !less(b, a) && !at_most(a, b) && !at_most(b, a),
        less(a, b) <==> less(opposite(b), opposite(a)),
        opposite(opposite(a)) == a,
        nan(opposite(a)) == nan(a),
{
}

/// How patterns are ordered, told by the patterns themselves: patterns without
/// the sign bit are ordered as whole numbers are, those with it the other way
/// round and below the ones without, and the two zeros are equal. A pattern
/// above that of infinity, apart from the sign bit, is below, above and equal
/// to nothing.
pub proof fn order_by_patterns(a: u32, b: u32)
    ensures
        nan(a) <==> 0x7f80_0000 < a < 0x8000_0000 || 0xff80_0000 < a,
        nan(a) || nan(b) ==> !less(a, b) && !at_most(a, b),
        !nan(a) && !nan(b) ==> {
            &&& a < 0x8000_0000 && b < 0x8000_0000 ==> (less(a, b) <==> a < b) && (at_most(a, b)
                <==> a <= b)
            &&& a >= 0x8000_0000 && b >= 0x8000_0000 ==> (less(a, b) <==> b < a) && (at_most(a, b)
                <==> b <= a)
            &&& a >= 0x8000_0000 && b < 0x8000_0000 ==> at_most(a, b) && (less(a, b) <==> a
                > 0x8000_0000 || b > 0)
            &&& a < 0x8000_0000 && b >= 0x8000_0000 ==> !less(a, b) && (at_most(a, b) <==> a == 0
                && b == 0x8000_0000)
        },
        a < 0x8000_0000 ==> opposite(a) == a + 0x8000_0000,
        a >= 0x8000_0000 ==> opposite(a) == a - 0x8000_0000,
{
}

} // verus!

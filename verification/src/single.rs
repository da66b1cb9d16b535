//! Single-precision numbers by their bits, as far as scores are compared.
//!
//! A score is carried as the bit pattern of an IEEE 754 single. Patterns are
//! compared here without computing on the numbers themselves.

use vstd::prelude::*;

verus! {

/// The pattern of positive zero.
pub const ZERO: u32 = 0;

/// The lowest pattern with the sign bit set, negative zero.
pub const SIGN: u32 = 0x8000_0000;

/// The pattern of positive infinity. Greater magnitudes are not numbers.
pub const INFINITY: u32 = 0x7f80_0000;

/// Where a pattern stands among the numbers, or nothing where it is not one.
/// Both zeros stand at zero.
pub open spec fn rank(bits: u32) -> Option<int> {
    let magnitude = if bits >= SIGN {
        bits - SIGN
    } else {
        bits as int
    };
    if magnitude > INFINITY {
        None
    } else if bits >= SIGN {
        Some(-magnitude)
    } else {
        Some(magnitude)
    }
}

/// The greater of two numbers. What is not a number gives way to the other; of
/// two zeros the first is taken.
pub open spec fn larger(a: u32, b: u32) -> u32 {
    match (rank(a), rank(b)) {
        (None, _) => b,
        (_, None) => a,
        (Some(x), Some(y)) => if y > x {
            b
        } else {
            a
        },
    }
}

/// Whether the second of two numbers is the greater one.
fn exceeds(b: u32, a: u32) -> (greater: bool)
    requires
        rank(a) is Some,
        rank(b) is Some,
    ensures
        greater == (rank(b)->0 > rank(a)->0),
{
    if a >= SIGN {
        if b >= SIGN {
            b < a
        } else {
            b > 0 || a > SIGN
        }
    } else {
        b < SIGN && b > a
    }
}

/// Whether a pattern is a number.
fn is_number(bits: u32) -> (number: bool)
    ensures
        number == (rank(bits) is Some),
{
    if bits >= SIGN {
        bits - SIGN <= INFINITY
    } else {
        bits <= INFINITY
    }
}

/// Takes the greater of two numbers.
pub fn maximum(a: u32, b: u32) -> (result: u32)
    ensures
        result == larger(a, b),
{
    if !is_number(a) {
        b
    } else if !is_number(b) {
        a
    } else if exceeds(b, a) {
        b
    } else {
        a
    }
}

/// The greater of two numbers is one of them and not below either.
pub proof fn law_larger_bounds_both(a: u32, b: u32)
    ensures
        larger(a, b) == a || larger(a, b) == b,
        rank(a) is Some && rank(b) is Some ==> {
            &&& rank(larger(a, b)) is Some
            &&& rank(larger(a, b))->0 >= rank(a)->0
            &&& rank(larger(a, b))->0 >= rank(b)->0
        },
        rank(a) is Some ==> rank(larger(a, b)) is Some,
{
}

/// Positive patterns up to infinity are ranked by their bits, negative ones by their
/// bits downwards, and all others are no numbers.
pub proof fn law_patterns_are_ranked(bits: u32)
    ensures
        bits <= 0x7f80_0000 ==> rank(bits) == Some(bits as int),
        0x7f80_0000 < bits < 0x8000_0000 ==> rank(bits) is None,
        0x8000_0000 <= bits <= 0xff80_0000 ==> rank(bits) == Some(0x8000_0000 - bits),
        bits > 0xff80_0000 ==> rank(bits) is None,
        ZERO == 0,
{
}

/// The second of two patterns is taken exactly where the first is no number or the
/// second is a greater one.
pub proof fn law_larger_takes_the_greater(a: u32, b: u32)
    ensures
        rank(a) is None ==> larger(a, b) == b,
        rank(a) is Some && rank(b) is None ==> larger(a, b) == a,
        rank(a) is Some && rank(b) is Some && rank(b)->0 > rank(a)->0 ==> larger(a, b) == b,
        rank(a) is Some && rank(b) is Some && rank(b)->0 <= rank(a)->0 ==> larger(a, b) == a,
{
}

} // verus!

//! Order of real numbers held as the bit patterns of IEEE-754 doubles.
//!
//! Geometry and similarity scores are carried through the rules unchanged; the
//! rules only ever compare them, and a comparison of doubles can be read off
//! their patterns.

use vstd::prelude::*;

verus! {

/// The sign bit of a pattern.
pub const SIGN: u64 = 0x8000_0000_0000_0000;

/// The pattern of positive infinity; larger magnitudes are no numbers.
pub const INFINITY: u64 = 0x7FF0_0000_0000_0000;

/// The pattern without its sign.
pub open spec fn magnitude(bits: u64) -> int {
    if bits < SIGN {
        bits as int
    } else {
        bits - SIGN
    }
}

/// Whether the pattern stands for a number (an infinity counts).
pub open spec fn is_number(bits: u64) -> bool {
    magnitude(bits) <= INFINITY
}

/// Place of the pattern in numeric order; both zeros share place 0.
pub open spec fn rank(bits: u64) -> int {
    if bits < SIGN {
        bits as int
    } else {
        SIGN - bits
    }
}

/// `a < b` as doubles: false when either is no number.
pub open spec fn below(a: u64, b: u64) -> bool {
    is_number(a) && is_number(b) && rank(a) < rank(b)
}

/// `a >= b` as doubles: false when either is no number.
pub open spec fn at_least(a: u64, b: u64) -> bool {
    is_number(a) && is_number(b) && rank(a) >= rank(b)
}

/// The larger of two numbers; `a` when they are equal.
pub open spec fn larger(a: u64, b: u64) -> u64 {
    if below(a, b) {
        b
    } else {
        a
    }
}

fn number(bits: u64) -> (r: bool)
    ensures
        r == is_number(bits),
{
    if bits < SIGN {
        bits <= INFINITY
    } else {
        bits - SIGN <= INFINITY
    }
}

fn place(bits: u64) -> (r: i128)
    ensures
        r == rank(bits),
{
    if bits < SIGN {
        bits as i128
    } else {
        SIGN as i128 - bits as i128
    }
}

/// `a < b` as doubles.
pub fn is_below(a: u64, b: u64) -> (r: bool)
    ensures
        r == below(a, b),
{
    number(a) && number(b) && place(a) < place(b)
}

/// `a >= b` as doubles.
pub fn is_at_least(a: u64, b: u64) -> (r: bool)
    ensures
        r == at_least(a, b),
{
    number(a) && number(b) && place(a) >= place(b)
}

/// The larger of two numbers.
pub fn max_of(a: u64, b: u64) -> (r: u64)
    ensures
        r == larger(a, b),
{
    if is_below(a, b) {
        b
    } else {
        a
    }
}

/// Comparing is asymmetric and transitive, and of two numbers one is below the
/// other or at least as large; the larger of two is no smaller than either.
pub proof fn comparisons_are_an_order(a: u64, b: u64, c: u64)
    ensures
        below(a, b) ==> !below(b, a),
        below(a, b) && below(b, c) ==> below(a, c),
        is_number(a) && is_number(b) ==> (at_least(a, b) <==> !below(a, b)),
        at_least(a, b) && at_least(b, c) ==> at_least(a, c),
        is_number(a) && is_number(b) ==> at_least(larger(a, b), a) && at_least(larger(a, b), b),
        larger(a, b) == a || larger(a, b) == b,
        is_number(a) && !is_number(b) ==> larger(a, b) == a,
{
}

/// A comparison reads the patterns as doubles: without a sign the larger pattern
/// is the larger number, with one it is the smaller, the zeros are equal, and
/// what is no number compares as nothing.
pub proof fn comparisons_follow_the_patterns(a: u64, b: u64)
    ensures
        a < b <= 0x7FF0_0000_0000_0000 ==> below(a, b) && !below(b, a) && !at_least(a, b),
        a <= 0x7FF0_0000_0000_0000 ==> at_least(a, a) && !below(a, a),
        0x8000_0000_0000_0000 <= a < b <= 0xFFF0_0000_0000_0000 ==> below(b, a) && !below(a, b),
        0x8000_0000_0000_0000 <= a <= 0xFFF0_0000_0000_0000 && b <= 0x7FF0_0000_0000_0000 ==> (
        below(a, b) <==> !(a == 0x8000_0000_0000_0000 && b == 0)) && !below(b, a),
        0x7FF0_0000_0000_0000 < a < 0x8000_0000_0000_0000 || 0xFFF0_0000_0000_0000 < a ==> !below(
            a,
            b,
        ) && !below(b, a) && !at_least(a, b) && !at_least(b, a),
{
}

} // verus!

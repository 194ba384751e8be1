//! Binary32 numbers as 32-bit patterns: the comparisons that searching needs.
use vstd::prelude::*;

verus! {

/// The pattern of 0.0.
pub const ZERO: u32 = 0;

/// The pattern of 1.0.
pub const ONE: u32 = 0x3f80_0000;

/// The pattern of positive infinity.
pub const INFINITY: u32 = 0x7f80_0000;

/// The pattern with the sign bit cleared.
pub open spec fn magnitude(w: u32) -> int {
    if w < 0x8000_0000 {
        w as int
    } else {
        w - 0x8000_0000
    }
}

/// Whether the pattern is not a number.
pub open spec fn is_nan(w: u32) -> bool {
    magnitude(w) > INFINITY
}

/// The place of a number in the numeric order. Both zeros have place 0; what is
/// not a number comes after everything else.
pub open spec fn order(w: u32) -> int {
    if is_nan(w) {
        0x8000_0000
    } else if w < 0x8000_0000 {
        w as int
    } else {
        -magnitude(w)
    }
}

/// The place of a pattern in the total order that also tells the zeros apart and
/// puts the patterns that are not numbers at the ends, by their sign.
pub open spec fn rank(w: u32) -> int {
    if w < 0x8000_0000 {
        w as int
    } else {
        -magnitude(w) - 1
    }
}

/// `a < b` as numbers; false when either is not a number.
pub open spec fn less(a: u32, b: u32) -> bool {
    !is_nan(a) && !is_nan(b) && order(a) < order(b)
}

/// `a <= b` as numbers; false when either is not a number.
pub open spec fn at_most(a: u32, b: u32) -> bool {
    !is_nan(a) && !is_nan(b) && order(a) <= order(b)
}

/// The larger of two numbers; an operand that is not a number is passed over.
pub open spec fn max_of(a: u32, b: u32) -> u32 {
    if is_nan(a) || less(a, b) {
        b
    } else {
        a
    }
}

/// The smaller of two numbers; an operand that is not a number is passed over.
pub open spec fn min_of(a: u32, b: u32) -> u32 {
    if is_nan(a) || less(b, a) {
        b
    } else {
        a
    }
}

/// The number with its sign cleared.
pub open spec fn abs_of(w: u32) -> u32 {
    magnitude(w) as u32
}

/// The number with its sign turned.
pub open spec fn negated(w: u32) -> u32 {
    if w < 0x8000_0000 {
        (w + 0x8000_0000) as u32
    } else {
        (w - 0x8000_0000) as u32
    }
}

/// Whether the pattern is not a number.
pub fn nan(w: u32) -> (r: bool)
    ensures
        r == is_nan(w),
{
    if w < 0x8000_0000 {
        w > INFINITY
    } else {
        w - 0x8000_0000 > INFINITY
    }
}

/// The place of a number in the numeric order.
pub fn order_of(w: u32) -> (r: i64)
    ensures
        r == order(w),
        -0x8000_0000 < r <= 0x8000_0000,
{
    if nan(w) {
        0x8000_0000
    } else if w < 0x8000_0000 {
        w as i64
    } else {
        0x8000_0000 - w as i64
    }
}

/// The place of a pattern in the total order.
pub fn rank_of(w: u32) -> (r: i64)
    ensures
        r == rank(w),
        -0x8000_0000 <= r < 0x8000_0000,
{
    if w < 0x8000_0000 {
        w as i64
    } else {
        0x7fff_ffff - w as i64
    }
}

/// `a < b` as numbers.
pub fn lt(a: u32, b: u32) -> (r: bool)
    ensures
        r == less(a, b),
{
    !nan(a) && !nan(b) && order_of(a) < order_of(b)
}

/// `a <= b` as numbers.
pub fn le(a: u32, b: u32) -> (r: bool)
    ensures
        r == at_most(a, b),
{
    !nan(a) && !nan(b) && order_of(a) <= order_of(b)
}

/// The larger of two numbers.
pub fn max(a: u32, b: u32) -> (r: u32)
    ensures
        r == max_of(a, b),
{
    if nan(a) || lt(a, b) {
        b
    } else {
        a
    }
}

/// The smaller of two numbers.
pub fn min(a: u32, b: u32) -> (r: u32)
    ensures
        r == min_of(a, b),
{
    if nan(a) || lt(b, a) {
        b
    } else {
        a
    }
}

/// The number with its sign cleared.
pub fn abs(w: u32) -> (r: u32)
    ensures
        r == abs_of(w),
{
    if w < 0x8000_0000 {
        w
    } else {
        w - 0x8000_0000
    }
}

/// The number with its sign turned.
pub fn negate(w: u32) -> (r: u32)
    ensures
        r == negated(w),
{
    if w < 0x8000_0000 {
        w + 0x8000_0000
    } else {
        w - 0x8000_0000
    }
}

/// Whether the pattern is a number other than the infinities.
pub fn finite(w: u32) -> (r: bool)
    ensures
        r == (magnitude(w) < INFINITY),
{
    if w < 0x8000_0000 {
        w < INFINITY
    } else {
        w - 0x8000_0000 < INFINITY
    }
}

/// The total order agrees with the numeric order wherever the latter decides.
pub proof fn rank_refines_order(a: u32, b: u32)
    requires
        !is_nan(a),
        !is_nan(b),
    ensures
        order(a) < order(b) ==> rank(a) < rank(b),
        rank(a) <= rank(b) ==> order(a) <= order(b),
{
}

/// Two patterns have one rank only when they are the same pattern.
pub proof fn rank_is_injective(a: u32, b: u32)
    requires
        rank(a) == rank(b),
    ensures
        a == b,
{
}

/// Patterns are compared as the numbers they stand for. Patterns above that of infinity,
/// their sign apart, stand for none, and compare with nothing. Numbers without the sign bit
/// go by their patterns, those with it the other way round and before the others, except
/// that the two zeros are equal.
pub proof fn patterns_compare_as_numbers(a: u32, b: u32)
    ensures
        is_nan(a) <==> 0x7f80_0000 < a < 0x8000_0000 || 0xff80_0000 < a,
        is_nan(a) || is_nan(b) ==> !less(a, b) && !at_most(a, b),
        !is_nan(a) && !is_nan(b) ==> {
            &&& a < 0x8000_0000 && b < 0x8000_0000 ==> (less(a, b) <==> a < b)
            &&& a >= 0x8000_0000 && b >= 0x8000_0000 ==> (less(a, b) <==> a > b)
            &&& a >= 0x8000_0000 && b < 0x8000_0000 ==> (less(a, b) <==> !(a == 0x8000_0000 && b
                == 0))
            &&& a < 0x8000_0000 && b >= 0x8000_0000 ==> !less(a, b)
            &&& at_most(a, b) <==> !less(b, a)
        },
{
}

/// The total order goes by pattern too, but tells the zeros apart and has a place for what
/// is not a number.
pub proof fn patterns_rank_in_one_order(a: u32, b: u32)
    ensures
        a < 0x8000_0000 && b < 0x8000_0000 ==> (rank(a) < rank(b) <==> a < b),
        a >= 0x8000_0000 && b >= 0x8000_0000 ==> (rank(a) < rank(b) <==> a > b),
        a >= 0x8000_0000 && b < 0x8000_0000 ==> rank(a) < rank(b),
        rank(a) == rank(b) ==> a == b,
{
}

/// The larger and the smaller of two numbers are one of them, the first where they are
/// equal, and the other one where one is not a number.
pub proof fn extremes_are_operands(a: u32, b: u32)
    ensures
        is_nan(a) ==> max_of(a, b) == b && min_of(a, b) == b,
        !is_nan(a) && is_nan(b) ==> max_of(a, b) == a && min_of(a, b) == a,
        !is_nan(a) && !is_nan(b) ==> {
            &&& order(a) == order(b) ==> max_of(a, b) == a && min_of(a, b) == a
            &&& order(a) < order(b) ==> max_of(a, b) == b && min_of(a, b) == a
            &&& order(a) > order(b) ==> max_of(a, b) == a && min_of(a, b) == b
        },
{
}

/// Turning the sign twice gives the number back; turning or clearing it changes nothing but
/// the sign.
pub proof fn signs_turn(a: u32)
    ensures
        negated(negated(a)) == a,
        negated(a) == a + 0x8000_0000 || a == negated(a) + 0x8000_0000,
        abs_of(a) < 0x8000_0000,
        abs_of(a) == a || abs_of(a) == negated(a),
        !is_nan(a) ==> order(negated(a)) == -order(a),
{
}

} // verus!

//! Words of bits.
use vstd::prelude::*;

verus! {

/// Bit `i` of a word.
pub open spec fn bit(w: u64, i: u64) -> bool {
    (w >> i) & 1 == 1
}

/// The word whose bits below `upto` are given, with the others clear.
pub open spec fn word_of(f: spec_fn(int) -> bool, upto: int) -> u64
    decreases upto,
{
    if upto <= 0 {
        0
    } else if f(upto - 1) {
        word_of(f, upto - 1) | (1u64 << ((upto - 1) as u64))
    } else {
        word_of(f, upto - 1)
    }
}

/// The bits of a word are those that it was made of.
pub proof fn lemma_word_of(f: spec_fn(int) -> bool, upto: int, i: u64)
    requires
        0 <= upto <= 64,
        i < 64,
    ensures
        bit(word_of(f, upto), i) <==> i < upto && f(i as int),
    decreases upto,
{
    if upto > 0 {
        lemma_word_of(f, upto - 1, i);
        let w = word_of(f, upto - 1);
        let t = (upto - 1) as u64;
        assert(((w | (1u64 << t)) >> i) & 1 == 1 <==> (i == t || (w >> i) & 1 == 1))
            by (bit_vector)
            requires
                i < 64,
                t < 64,
        ;
    } else {
        assert((0u64 >> i) & 1 == 0) by (bit_vector);
    }
}

/// How many of the bits below `upto` are set.
pub open spec fn ones(w: u64, upto: int) -> int
    decreases upto,
{
    if upto <= 0 {
        0
    } else {
        ones(w, upto - 1) + if bit(w, (upto - 1) as u64) {
            1int
        } else {
            0
        }
    }
}

pub proof fn lemma_ones_bound(w: u64, upto: int)
    requires
        0 <= upto,
    ensures
        0 <= ones(w, upto) <= upto,
    decreases upto,
{
    if upto > 0 {
        lemma_ones_bound(w, upto - 1);
    }
}

/// `u64::count_ones` returns the number of ones in the binary representation.
pub assume_specification[ u64::count_ones ](w: u64) -> (r: u32)
    ensures
        r == ones(w, 64),
;

/// Sets bit `i` of a word where it is clear.
pub fn with_bit(w: u64, i: u64) -> (r: u64)
    requires
        i < 64,
    ensures
        r == w | (1u64 << i),
{
    w | (1u64 << i)
}

} // verus!

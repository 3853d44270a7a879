//! Scores: unsigned integers that order as binary floating-point numbers do.
//!
//! A double-precision number is given by its 64 bits: the sign in the
//! highest bit, the magnitude in the others. The score of a number is an
//! integer that is greater exactly where the number is greater, so that
//! numbers can be kept, compared and found again as integers.

use vstd::prelude::*;

verus! {

/// The sign bit of a double-precision number.
pub const SIGN: u64 = 0x8000_0000_0000_0000;

/// The score of zero.
pub const ZERO: u64 = 0x8000_0000_0000_0000;

/// Whether the bits are those of a number below zero, or of negative zero.
pub open spec fn is_negative(bits: u64) -> bool {
    bits & SIGN != 0
}

/// The score of the number with the given bits: a number that is not
/// negative moves above all negative ones, keeping its order; a negative
/// number is turned around, so that the greater magnitude comes first.
pub open spec fn score_of(bits: u64) -> u64 {
    if is_negative(bits) {
        !bits
    } else {
        bits | SIGN
    }
}

/// The bits of the number that a score stands for.
pub open spec fn bits_of(score: u64) -> u64 {
    if score & SIGN != 0 {
        score & !SIGN
    } else {
        !score
    }
}

/// The score of the number with the given bits.
pub fn score_of_bits(bits: u64) -> (r: u64)
    ensures
        r == score_of(bits),
        bits_of(r) == bits,
{
    proof {
        lemma_score_round_trip(bits);
    }
    if bits & SIGN == 0 {
        bits | SIGN
    } else {
        !bits
    }
}

/// The bits of the number that a score stands for.
pub fn bits_of_score(score: u64) -> (r: u64)
    ensures
        r == bits_of(score),
        score_of(r) == score,
{
    proof {
        lemma_bits_round_trip(score);
    }
    if score & SIGN != 0 {
        score & !SIGN
    } else {
        !score
    }
}

/// Zero, whose bits are all clear, has the score `ZERO`.
pub proof fn lemma_score_of_zero()
    ensures
        score_of(0) == ZERO,
{
    assert(0u64 & 0x8000_0000_0000_0000 == 0) by (bit_vector);
    assert(0u64 | 0x8000_0000_0000_0000 == 0x8000_0000_0000_0000) by (bit_vector);
}

/// A score stands for the bits it was made from.
pub proof fn lemma_score_round_trip(bits: u64)
    ensures
        bits_of(score_of(bits)) == bits,
{
    assert(bits & 0x8000_0000_0000_0000 != 0 ==> (!bits) & 0x8000_0000_0000_0000 == 0 && !(!bits)
        == bits) by (bit_vector);
    assert(bits & 0x8000_0000_0000_0000 == 0 ==> (bits | 0x8000_0000_0000_0000)
        & 0x8000_0000_0000_0000 != 0 && (bits | 0x8000_0000_0000_0000) & !0x8000_0000_0000_0000u64
        == bits) by (bit_vector);
}

/// Every integer is the score of the bits it stands for.
pub proof fn lemma_bits_round_trip(score: u64)
    ensures
        score_of(bits_of(score)) == score,
{
    assert(score & 0x8000_0000_0000_0000 != 0 ==> (score & !0x8000_0000_0000_0000u64)
        & 0x8000_0000_0000_0000 == 0 && (score & !0x8000_0000_0000_0000u64) | 0x8000_0000_0000_0000
        == score) by (bit_vector);
    assert(score & 0x8000_0000_0000_0000 == 0 ==> (!score) & 0x8000_0000_0000_0000 != 0 && !(!score)
        == score) by (bit_vector);
}

/// Scores order as the numbers do: a negative number lies below every
/// number that is not negative; of two numbers that are not negative the one
/// with the greater bits is greater; of two negative numbers the one with
/// the smaller bits.
pub proof fn lemma_score_order(a: u64, b: u64)
    ensures
        is_negative(a) && !is_negative(b) ==> score_of(a) < score_of(b),
        !is_negative(a) && !is_negative(b) ==> (score_of(a) < score_of(b) <==> a < b),
        is_negative(a) && is_negative(b) ==> (score_of(a) < score_of(b) <==> b < a),
{
    assert(a & 0x8000_0000_0000_0000 != 0 && b & 0x8000_0000_0000_0000 == 0 ==> !a < (b
        | 0x8000_0000_0000_0000)) by (bit_vector);
    assert(a & 0x8000_0000_0000_0000 == 0 && b & 0x8000_0000_0000_0000 == 0 ==> ((a
        | 0x8000_0000_0000_0000) < (b | 0x8000_0000_0000_0000) <==> a < b)) by (bit_vector);
    assert((!a < !b) <==> b < a) by (bit_vector);
}

} // verus!

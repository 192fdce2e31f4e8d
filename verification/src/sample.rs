//! Double-precision values as 64-bit patterns: one sign bit, then eleven
//! exponent bits and fifty-two fraction bits that together form the magnitude.

use vstd::prelude::*;

verus! {

/// The sign bit of a pattern.
pub const SIGN_BIT: u64 = 0x8000_0000_0000_0000;

/// The exponent and fraction bits of a pattern.
pub const MAGNITUDE_MASK: u64 = 0x7fff_ffff_ffff_ffff;

/// The magnitude of an infinity; every larger magnitude is not a number.
pub const INFINITY_MAGNITUDE: u64 = 0x7ff0_0000_0000_0000;

/// The pattern of positive zero.
pub const ZERO: u64 = 0;

/// A pattern that encodes no number.
pub open spec fn spec_is_nan(bits: u64) -> bool {
    (bits & MAGNITUDE_MASK) > INFINITY_MAGNITUDE
}

/// The place of a number on the number line, as an integer: the magnitude
/// bits, negated where the sign bit is set. Among patterns that encode a
/// number, one number is smaller than another exactly when its rank is
/// smaller, and both zeros have rank 0.
pub open spec fn spec_rank(bits: u64) -> int {
    if bits & SIGN_BIT == 0 {
        (bits & MAGNITUDE_MASK) as int
    } else {
        -((bits & MAGNITUDE_MASK) as int)
    }
}

/// Numeric equality: both patterns encode a number, and the same one.
pub open spec fn spec_same_value(a: u64, b: u64) -> bool {
    !spec_is_nan(a) && !spec_is_nan(b) && spec_rank(a) == spec_rank(b)
}

/// Numeric strict order: both patterns encode a number and `a` is smaller.
pub open spec fn spec_precedes(a: u64, b: u64) -> bool {
    !spec_is_nan(a) && !spec_is_nan(b) && spec_rank(a) < spec_rank(b)
}

/// The canonical pattern of the number with the given rank.
pub open spec fn spec_from_rank(rank: int) -> u64 {
    if rank >= 0 {
        rank as u64
    } else {
        (SIGN_BIT + (-rank)) as u64
    }
}

/// A rank that belongs to a number (infinities included).
pub open spec fn is_number_rank(rank: int) -> bool {
    -(INFINITY_MAGNITUDE as int) <= rank <= INFINITY_MAGNITUDE as int
}

pub fn is_nan(bits: u64) -> (nan: bool)
    ensures
        nan == spec_is_nan(bits),
{
    (bits & MAGNITUDE_MASK) > INFINITY_MAGNITUDE
}

pub fn rank(bits: u64) -> (r: i64)
    ensures
        r == spec_rank(bits),
        !spec_is_nan(bits) ==> is_number_rank(r as int),
{
    let magnitude: u64 = bits & MAGNITUDE_MASK;
    assert(magnitude <= 0x7fff_ffff_ffff_ffffu64) by (bit_vector)
        requires
            magnitude == bits & 0x7fff_ffff_ffff_ffffu64,
    ;
    if bits & SIGN_BIT == 0 {
        magnitude as i64
    } else {
        -(magnitude as i64)
    }
}

pub fn same_value(a: u64, b: u64) -> (same: bool)
    ensures
        same == spec_same_value(a, b),
{
    !is_nan(a) && !is_nan(b) && rank(a) == rank(b)
}

pub fn precedes(a: u64, b: u64) -> (before: bool)
    ensures
        before == spec_precedes(a, b),
{
    !is_nan(a) && !is_nan(b) && rank(a) < rank(b)
}

pub fn from_rank(rank: i64) -> (bits: u64)
    requires
        is_number_rank(rank as int),
    ensures
        bits == spec_from_rank(rank as int),
        !spec_is_nan(bits),
        spec_rank(bits) == rank,
{
    proof {
        lemma_from_rank(rank as int);
    }
    if rank >= 0 {
        rank as u64
    } else {
        SIGN_BIT + ((-rank) as u64)
    }
}

/// Every number's rank leads back, through its canonical pattern, to itself.
pub proof fn lemma_from_rank(rank: int)
    requires
        is_number_rank(rank),
    ensures
        !spec_is_nan(spec_from_rank(rank)),
        spec_rank(spec_from_rank(rank)) == rank,
{
    if rank >= 0 {
        let m = rank as u64;
        assert(m & 0x8000_0000_0000_0000u64 == 0 && m & 0x7fff_ffff_ffff_ffffu64 == m)
            by (bit_vector)
            requires
                m <= 0x7ff0_0000_0000_0000u64,
        ;
    } else {
        let m = (-rank) as u64;
        let bits = (SIGN_BIT + m) as u64;
        assert(bits & 0x8000_0000_0000_0000u64 != 0 && bits & 0x7fff_ffff_ffff_ffffu64 == m)
            by (bit_vector)
            requires
                m <= 0x7ff0_0000_0000_0000u64,
                bits == 0x8000_0000_0000_0000u64 + m,
        ;
    }
}

/// The rank of a pattern that encodes a number lies between the two
/// infinities.
pub proof fn lemma_rank_range(bits: u64)
    ensures
        !spec_is_nan(bits) ==> is_number_rank(spec_rank(bits)),
        spec_is_nan(bits) ==> !is_number_rank(spec_rank(bits)),
{
}

/// Numeric equality relates every number to itself, is symmetric and
/// transitive; a pattern that encodes no number equals nothing, itself
/// included.
pub proof fn lemma_same_value_is_partial_equivalence(a: u64, b: u64, c: u64)
    ensures
        spec_same_value(a, a) <==> !spec_is_nan(a),
        spec_same_value(a, b) ==> spec_same_value(b, a),
        spec_same_value(a, b) && spec_same_value(b, c) ==> spec_same_value(a, c),
        a == b && !spec_is_nan(a) ==> spec_same_value(a, b),
{
}

/// Of two numbers exactly one of smaller, equal and larger holds.
pub proof fn lemma_trichotomy(a: u64, b: u64)
    requires
        !spec_is_nan(a),
        !spec_is_nan(b),
    ensures
        spec_precedes(a, b) || spec_same_value(a, b) || spec_precedes(b, a),
        !(spec_precedes(a, b) && spec_same_value(a, b)),
        !(spec_precedes(a, b) && spec_precedes(b, a)),
        !(spec_same_value(a, b) && spec_precedes(b, a)),
{
}

} // verus!

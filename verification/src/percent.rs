//! The clip amount: a percentage given as a double-precision pattern, and
//! the number of values it cuts from each end of a distribution.

use vstd::prelude::*;
use vstd::arithmetic::div_mod::{
    lemma_basic_div, lemma_div_denominator, lemma_div_is_ordered, lemma_div_pos_is_pos,
    lemma_fundamental_div_mod, lemma_mod_bound, lemma_multiply_divide_le, lemma_remainder_lower,
};
use vstd::arithmetic::power2::{
    lemma2_to64, lemma_pow2_adds, lemma_pow2_pos, lemma_pow2_strictly_increases, pow2,
};
use vstd::bits::lemma_u128_shr_is_div;
use crate::sample::{precedes, rank, spec_is_nan, spec_precedes, spec_rank, ZERO};

verus! {

/// The pattern of the number 100.
pub const HUNDRED: u64 = 0x4059_0000_0000_0000;

/// The weight of the lowest exponent bit: two to the power 52.
pub const IMPLICIT_ONE: u64 = 0x0010_0000_0000_0000;

/// The exponent field of a non-negative number of rank `rank`.
pub open spec fn exponent_field(rank: int) -> int {
    rank / (IMPLICIT_ONE as int)
}

/// The fraction field of a non-negative number of rank `rank`.
pub open spec fn fraction_field(rank: int) -> int {
    rank % (IMPLICIT_ONE as int)
}

/// The significand of a non-negative number of rank `rank`: its fraction
/// bits, with the implicit leading one unless the exponent field is zero.
/// The number itself is `significand / 2^places`.
pub open spec fn significand(rank: int) -> int {
    if exponent_field(rank) == 0 {
        fraction_field(rank)
    } else {
        fraction_field(rank) + IMPLICIT_ONE
    }
}

/// The number of binary places of a non-negative number below two to the
/// power 53, of rank `rank`. The number itself is `significand / 2^places`.
pub open spec fn places(rank: int) -> nat {
    if exponent_field(rank) == 0 {
        1074
    } else {
        (1075 - exponent_field(rank)) as nat
    }
}

/// A clip amount that calls for clipping: a number above zero.
pub open spec fn spec_is_active(percent: u64) -> bool {
    spec_precedes(ZERO, percent)
}

/// The number of values that `percent` per cent of `values` values comes
/// to, rounded down and computed without rounding in between: none unless
/// `percent` is a number above zero, all of them from 100 per cent on.
pub open spec fn tail_cells(percent: u64, values: nat) -> nat {
    if !spec_is_active(percent) {
        0
    } else if !spec_precedes(percent, HUNDRED) {
        values
    } else {
        ((significand(spec_rank(percent)) * values) / (100 * pow2(places(spec_rank(percent)))
            as int)) as nat
    }
}

/// The clip amount that takes effect: `percent` itself where it is a number
/// above zero, and zero for everything else.
pub open spec fn spec_effective(percent: u64) -> u64 {
    if spec_is_active(percent) {
        percent
    } else {
        ZERO
    }
}

pub fn is_active(percent: u64) -> (active: bool)
    ensures
        active == spec_is_active(percent),
{
    precedes(ZERO, percent)
}

pub fn effective(percent: u64) -> (bits: u64)
    ensures
        bits == spec_effective(percent),
{
    if is_active(percent) {
        percent
    } else {
        ZERO
    }
}

proof fn lemma_zero_and_hundred()
    ensures
        !spec_is_nan(ZERO),
        spec_rank(ZERO) == 0,
        !spec_is_nan(HUNDRED),
        spec_rank(HUNDRED) == 0x4059_0000_0000_0000,
{
    assert(0u64 & 0x7fff_ffff_ffff_ffffu64 == 0 && 0u64 & 0x8000_0000_0000_0000u64 == 0)
        by (bit_vector);
    assert(0x4059_0000_0000_0000u64 & 0x7fff_ffff_ffff_ffffu64 == 0x4059_0000_0000_0000u64
        && 0x4059_0000_0000_0000u64 & 0x8000_0000_0000_0000u64 == 0) by (bit_vector);
}

proof fn lemma_powers()
    ensures
        pow2(46) == 0x4000_0000_0000,
        pow2(47) == 0x8000_0000_0000,
        pow2(52) == 0x10_0000_0000_0000,
        pow2(53) == 0x20_0000_0000_0000,
        pow2(117) == 0x20_0000_0000_0000 * 0x1_0000_0000_0000_0000,
{
    lemma2_to64();
    lemma_pow2_adds(32, 14);
    lemma_pow2_adds(32, 15);
    lemma_pow2_adds(32, 20);
    lemma_pow2_adds(32, 21);
    lemma_pow2_adds(53, 64);
}

/// The fields of a number above zero and below 100.
proof fn lemma_fields(r: int)
    requires
        0 < r < 0x4059_0000_0000_0000,
    ensures
        0 <= exponent_field(r) <= 1029,
        0 <= fraction_field(r) < IMPLICIT_ONE,
        r == exponent_field(r) * IMPLICIT_ONE + fraction_field(r),
        0 <= significand(r) < 0x20_0000_0000_0000,
        exponent_field(r) > 0 ==> significand(r) >= IMPLICIT_ONE,
        exponent_field(r) == 0 ==> significand(r) < IMPLICIT_ONE,
        46 <= places(r) <= 1074,
        exponent_field(r) == 1029 ==> significand(r) < 0x19_0000_0000_0000,
{
    let one = IMPLICIT_ONE as int;
    lemma_fundamental_div_mod(r, one);
    lemma_mod_bound(r, one);
    lemma_div_pos_is_pos(r, one);
    assert(0x4059_0000_0000_0000int / 0x10_0000_0000_0000int == 1029) by (nonlinear_arith);
    lemma_div_is_ordered(r, 0x4059_0000_0000_0000, one);
    assert(one * (r / one) == (r / one) * one) by (nonlinear_arith);
}

/// A number above zero and below 100 has a significand below 100 times two
/// to the power of its places: the decoded value is below 100.
proof fn lemma_below_hundred(r: int)
    requires
        0 < r < 0x4059_0000_0000_0000,
    ensures
        0 <= significand(r) < 100 * pow2(places(r)),
        pow2(places(r)) > 0,
{
    lemma_fields(r);
    lemma_powers();
    lemma_pow2_pos(places(r));
    if exponent_field(r) == 1029 {
        assert(places(r) == 46);
    } else {
        assert(places(r) >= 47);
        if places(r) > 47 {
            lemma_pow2_strictly_increases(47, places(r));
        }
        assert(pow2(places(r)) >= 0x8000_0000_0000);
        assert(100 * pow2(places(r)) >= 100 * 0x8000_0000_0000) by (nonlinear_arith)
            requires
                pow2(places(r)) >= 0x8000_0000_0000,
        ;
    }
}

/// Among numbers above zero and below 100 the decoded value grows with the
/// rank: `significand / 2^places` of the smaller rank is at most that of the
/// larger.
proof fn lemma_value_grows_with_rank(r1: int, r2: int)
    requires
        0 < r1 <= r2 < 0x4059_0000_0000_0000,
    ensures
        significand(r1) * pow2(places(r2)) <= significand(r2) * pow2(places(r1)),
{
    let one = IMPLICIT_ONE as int;
    lemma_fields(r1);
    lemma_fields(r2);
    lemma_div_is_ordered(r1, r2, one);
    let e1 = exponent_field(r1);
    let e2 = exponent_field(r2);
    let s1 = significand(r1);
    let s2 = significand(r2);
    let scale1 = pow2(places(r1)) as int;
    let scale2 = pow2(places(r2)) as int;
    lemma_pow2_pos(places(r1));
    lemma_pow2_pos(places(r2));
    if places(r1) == places(r2) {
        if e1 == e2 {
            assert(s1 <= s2);
        } else {
            assert(e1 == 0 && e2 == 1);
            assert(s1 < one <= s2);
        }
        assert(s1 * scale2 <= s2 * scale1) by (nonlinear_arith)
            requires
                s1 <= s2,
                scale1 == scale2,
                scale1 > 0,
        ;
    } else {
        assert(e1 < e2 && e2 >= 2);
        let d = (places(r1) - places(r2)) as nat;
        assert(d >= 1);
        lemma_pow2_adds(places(r2), d);
        assert(scale1 == scale2 * pow2(d));
        lemma2_to64();
        if d > 1 {
            lemma_pow2_strictly_increases(1, d);
        }
        assert(pow2(d) >= 2);
        assert(s1 * scale2 <= s2 * scale1) by (nonlinear_arith)
            requires
                0 <= s1 < 0x20_0000_0000_0000,
                s2 >= 0x10_0000_0000_0000,
                scale2 > 0,
                scale1 == scale2 * pow2(d),
                pow2(d) >= 2,
        ;
    }
}

/// Rounded-down quotients keep the order of the fractions they come from.
proof fn lemma_quotients_ordered(x: int, a: int, y: int, b: int)
    requires
        0 <= x,
        0 <= y,
        0 < a,
        0 < b,
        x * b <= y * a,
    ensures
        x / a <= y / b,
{
    let q = x / a;
    lemma_remainder_lower(x, a);
    lemma_div_pos_is_pos(x, a);
    assert(q * b <= y) by (nonlinear_arith)
        requires
            q * a <= x,
            x * b <= y * a,
            0 < a,
            0 < b,
            0 <= q,
    ;
    assert(q * b == b * q) by (nonlinear_arith);
    lemma_div_multiples_le(q, b, y);
}

proof fn lemma_div_multiples_le(q: int, b: int, y: int)
    requires
        0 < b,
        b * q <= y,
    ensures
        q <= y / b,
{
    lemma_fundamental_div_mod(y, b);
    lemma_mod_bound(y, b);
    assert(q <= y / b) by (nonlinear_arith)
        requires
            0 < b,
            b * q <= y,
            y == b * (y / b) + (y % b),
            0 <= y % b < b,
    ;
}

/// Never more values are cut than there are.
pub proof fn lemma_tail_cells_bounded(percent: u64, values: nat)
    ensures
        tail_cells(percent, values) <= values,
{
    lemma_zero_and_hundred();
    if spec_is_active(percent) && spec_precedes(percent, HUNDRED) {
        let r = spec_rank(percent);
        lemma_below_hundred(r);
        let s = significand(r);
        let d = 100 * pow2(places(r)) as int;
        assert(s * values <= d * values) by (nonlinear_arith)
            requires
                0 <= s < d,
                0 <= values,
        ;
        lemma_multiply_divide_le(s * values, d, values as int);
        assert(0 <= s * values) by (nonlinear_arith)
            requires
                0 <= s,
                0 <= values,
        ;
        lemma_div_pos_is_pos(s * values, d);
    }
}

/// A larger clip amount never cuts fewer values: of two numbers, the larger
/// one's tail is at least as long.
pub proof fn lemma_tail_cells_monotone(smaller: u64, larger: u64, values: nat)
    requires
        !spec_is_nan(larger),
        spec_rank(smaller) <= spec_rank(larger),
    ensures
        tail_cells(smaller, values) <= tail_cells(larger, values),
{
    lemma_zero_and_hundred();
    lemma_tail_cells_bounded(smaller, values);
    lemma_tail_cells_bounded(larger, values);
    if spec_is_active(smaller) && spec_precedes(larger, HUNDRED) {
        let r1 = spec_rank(smaller);
        let r2 = spec_rank(larger);
        lemma_value_grows_with_rank(r1, r2);
        lemma_below_hundred(r1);
        lemma_below_hundred(r2);
        let s1 = significand(r1);
        let s2 = significand(r2);
        let scale1 = pow2(places(r1)) as int;
        let scale2 = pow2(places(r2)) as int;
        assert((s1 * values) * (100 * scale2) <= (s2 * values) * (100 * scale1)) by (nonlinear_arith)
            requires
                s1 * scale2 <= s2 * scale1,
                0 <= values,
        ;
        assert(0 <= s1 * values && 0 <= s2 * values) by (nonlinear_arith)
            requires
                0 <= s1,
                0 <= s2,
                0 <= values,
        ;
        lemma_quotients_ordered(s1 * values, 100 * scale1, s2 * values, 100 * scale2);
        lemma_div_pos_is_pos(s1 * values, 100 * scale1);
        lemma_div_pos_is_pos(s2 * values, 100 * scale2);
    }
}

/// The number of values that `percent` per cent of `values` values comes to.
pub fn tail_count(percent: u64, values: usize) -> (tail: usize)
    ensures
        tail == tail_cells(percent, values as nat),
        tail <= values,
{
    proof {
        lemma_zero_and_hundred();
        lemma_tail_cells_bounded(percent, values as nat);
    }
    if !is_active(percent) {
        return 0;
    }
    if !precedes(percent, HUNDRED) {
        return values;
    }
    let r: u64 = rank(percent) as u64;
    let exponent: u64 = r >> 52;
    let fraction: u64 = r & 0x000f_ffff_ffff_ffff;
    proof {
        assert(r >> 52 == r / 0x10_0000_0000_0000 && r & 0x000f_ffff_ffff_ffff == r
            % 0x10_0000_0000_0000) by (bit_vector);
        lemma_fields(r as int);
        lemma_below_hundred(r as int);
        lemma_powers();
    }
    let mantissa: u64 = if exponent == 0 {
        fraction
    } else {
        fraction + IMPLICIT_ONE
    };
    let shift: u64 = if exponent == 0 {
        1074
    } else {
        1075 - exponent
    };
    assert(mantissa == significand(r as int));
    assert(shift == places(r as int));
    assert((mantissa as u128) * (values as u128) < 0x20_0000_0000_0000 * 0x1_0000_0000_0000_0000)
        by (nonlinear_arith)
        requires
            0 <= mantissa < 0x20_0000_0000_0000,
            0 <= values < 0x1_0000_0000_0000_0000,
    ;
    let product: u128 = (mantissa as u128) * (values as u128);
    if shift >= 128 {
        proof {
            lemma_pow2_strictly_increases(117, shift as nat);
            assert(product < 100 * pow2(shift as nat));
            lemma_basic_div(product as int, (100 * pow2(shift as nat)) as int);
        }
        return 0;
    }
    let shifted: u128 = product >> (shift as u128);
    let tail: u128 = shifted / 100;
    proof {
        lemma_u128_shr_is_div(product, shift as u128);
        lemma_pow2_pos(shift as nat);
        lemma_div_denominator(product as int, pow2(shift as nat) as int, 100);
        assert(pow2(shift as nat) * 100 == 100 * pow2(shift as nat)) by (nonlinear_arith);
    }
    tail as usize
}

/// A clip amount: a percentage that is a number and is not negative.
#[derive(Clone, Copy, Debug)]
pub struct ClipParameter {
    bits: u64,
}

impl ClipParameter {
    #[verifier::type_invariant]
    spec fn not_negative(self) -> bool {
        !spec_is_nan(self.bits) && spec_rank(self.bits) >= 0
    }

    /// The pattern of the percentage.
    pub closed spec fn percent(self) -> u64 {
        self.bits
    }

    /// The clip amount for a percentage as it was given: the percentage
    /// itself where it is a number above zero, and zero for a negative one
    /// and for what is no number.
    pub fn new(percent: u64) -> (clip: ClipParameter)
        ensures
            clip.percent() == spec_effective(percent),
    {
        proof {
            lemma_zero_and_hundred();
        }
        ClipParameter { bits: effective(percent) }
    }

    /// The pattern of the percentage, which is a number and not negative.
    pub fn bits(&self) -> (bits: u64)
        ensures
            bits == self.percent(),
            !spec_is_nan(bits),
            spec_rank(bits) >= 0,
    {
        proof {
            use_type_invariant(self);
        }
        self.bits
    }

    /// Whether the amount calls for clipping: it is above zero.
    pub fn is_active(&self) -> (active: bool)
        ensures
            active == spec_is_active(self.percent()),
    {
        is_active(self.bits)
    }

    /// The number of values that this percentage of `values` values comes
    /// to.
    pub fn tail_count(&self, values: usize) -> (tail: usize)
        ensures
            tail == tail_cells(self.percent(), values as nat),
            tail <= values,
    {
        tail_count(self.bits, values)
    }
}

impl Default for ClipParameter {
    /// No clipping: zero per cent.
    fn default() -> (clip: ClipParameter)
        ensures
            clip.percent() == ZERO,
    {
        proof {
            lemma_zero_and_hundred();
        }
        ClipParameter { bits: ZERO }
    }
}

} // verus!

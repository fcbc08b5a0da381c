//! Addition and multiplication of binary64 numbers, correctly rounded.

use vstd::prelude::*;
use vstd::arithmetic::div_mod::lemma_fundamental_div_mod_converse;
use vstd::arithmetic::power2::{pow2, lemma2_to64, lemma2_to64_rest};
use crate::power::{lemma_floor_log2_unique, lemma_pow2_monotone, lemma_pow2_split, pow2_u128};
use crate::rounding::lemma_magnitude_parts;
use crate::scalar::{
    div_round_even, last_place, rounded, rounded_magnitude, signed, Scalar, HIDDEN_BIT,
    INFINITY_BITS, NAN_BITS,
};

verus! {

/// The quiet NaN that stands for every invalid result.
pub open spec fn nan_value() -> Scalar {
    Scalar { bits: NAN_BITS }
}

/// The integer `(-1)^negative * n`.
pub open spec fn signed_int(negative: bool, n: nat) -> int {
    if negative {
        -(n as int)
    } else {
        n as int
    }
}

/// The value of a finite `x` in units of `2^q`, for a `q` not above its exponent.
pub open spec fn scaled(x: Scalar, q: int) -> int {
    signed_int(x.negative(), x.significand() * pow2((x.exponent() - q) as nat))
}

/// The binary64 product of `a` and `b`.
///
/// A NaN operand, or zero times infinity, gives the quiet NaN; otherwise the
/// sign is the exclusive or of the signs, an infinite operand gives infinity,
/// and finite operands give their exact product, rounded.
pub open spec fn product(a: Scalar, b: Scalar) -> Scalar {
    let negative = a.negative() != b.negative();
    if a.nan() || b.nan() {
        nan_value()
    } else if a.infinite() || b.infinite() {
        if a.magnitude() == 0 || b.magnitude() == 0 {
            nan_value()
        } else {
            signed(negative, INFINITY_BITS as nat)
        }
    } else {
        rounded(negative, a.significand() * b.significand(), a.exponent() + b.exponent())
    }
}

/// The binary64 sum of `a` and `b`.
///
/// A NaN operand, or infinities of opposite sign, give the quiet NaN; an
/// infinite operand otherwise gives itself. Finite operands give their exact
/// sum, rounded; an exact sum of zero is negative only when both operands are.
pub open spec fn sum(a: Scalar, b: Scalar) -> Scalar {
    if a.nan() || b.nan() {
        nan_value()
    } else if a.infinite() {
        if b.infinite() && a.negative() != b.negative() {
            nan_value()
        } else {
            a
        }
    } else if b.infinite() {
        b
    } else {
        let q = if a.exponent() <= b.exponent() { a.exponent() } else { b.exponent() };
        let total = scaled(a, q) + scaled(b, q);
        if total == 0 {
            signed(a.negative() && b.negative(), 0)
        } else if total < 0 {
            rounded(true, (-total) as nat, q)
        } else {
            rounded(false, total as nat, q)
        }
    }
}

/// Addition does not depend on the order of its operands.
pub proof fn lemma_sum_commutes(a: Scalar, b: Scalar)
    ensures
        sum(a, b) == sum(b, a),
{
}

/// Multiplication does not depend on the order of its operands.
pub proof fn lemma_product_commutes(a: Scalar, b: Scalar)
    ensures
        product(a, b) == product(b, a),
{
    assert(a.significand() * b.significand() == b.significand() * a.significand())
        by (nonlinear_arith);
}

/// An operand more than 54 binades below the other is lost in rounding.
proof fn lemma_sum_far(hi: Scalar, lo: Scalar)
    requires
        hi.finite(),
        lo.finite(),
        hi.exponent() - lo.exponent() >= 55,
    ensures
        sum(hi, lo) == hi,
{
    lemma2_to64();
    lemma2_to64_rest();
    lemma_magnitude_parts(hi);
    lemma_magnitude_parts(lo);
    let a = hi.significand();
    let b = lo.significand();
    let q = lo.exponent();
    let d = (hi.exponent() - q) as nat;
    let unit = pow2(d);
    lemma_pow2_monotone(55, d);
    lemma_pow2_split(52, d);
    lemma_pow2_split(53, d);
    assert(pow2(0) == 1);
    assert(b * pow2(0) == b);
    assert(scaled(lo, q) == signed_int(lo.negative(), b));
    assert(scaled(hi, q) == signed_int(hi.negative(), a * unit));
    assert(pow2(52) * unit <= a * unit) by (nonlinear_arith)
        requires
            pow2(52) <= a,
            unit > 0,
    ;
    assert((a + 1) * unit <= pow2(53) * unit) by (nonlinear_arith)
        requires
            a + 1 <= pow2(53),
            unit > 0,
    ;
    assert((a + 1) * unit == a * unit + unit) by (nonlinear_arith);
    assert((a - 1) * unit == a * unit - unit) by (nonlinear_arith);
    if hi.negative() == lo.negative() || b == 0 {
        let n = (a * unit + b) as nat;
        lemma_floor_log2_unique(n, 52 + d);
        lemma_fundamental_div_mod_converse(n as int, unit as int, a as int, b as int);
        assert(last_place(n, q) == hi.exponent());
        assert(div_round_even(n, unit) == a);
        assert(rounded_magnitude(n, q) == hi.magnitude());
    } else if a > HIDDEN_BIT {
        let n = (a * unit - b) as nat;
        assert(pow2(52) * unit <= (a - 1) * unit) by (nonlinear_arith)
            requires
                pow2(52) <= a - 1,
                unit > 0,
        ;
        lemma_floor_log2_unique(n, 52 + d);
        lemma_fundamental_div_mod_converse(n as int, unit as int, a - 1, unit - b);
        assert(last_place(n, q) == hi.exponent());
        assert(div_round_even(n, unit) == a);
        assert(rounded_magnitude(n, q) == hi.magnitude());
    } else {
        let n = (a * unit - b) as nat;
        let half = pow2((d - 1) as nat);
        lemma_pow2_split(1, (d - 1) as nat);
        lemma_pow2_monotone(54, (d - 1) as nat);
        lemma_pow2_split(52, (d - 1) as nat);
        assert(unit == 2 * half);
        assert(a * unit == pow2(53) * half) by (nonlinear_arith)
            requires
                a == pow2(52),
                pow2(53) == 2 * pow2(52),
                unit == 2 * half,
        ;
        assert((pow2(53) - 1) * half == pow2(53) * half - half) by (nonlinear_arith);
        assert(pow2(52) * half <= (pow2(53) - 1) * half) by (nonlinear_arith)
            requires
                pow2(52) <= pow2(53) - 1,
                half > 0,
        ;
        lemma_floor_log2_unique(n, (51 + d) as nat);
        lemma_fundamental_div_mod_converse(n as int, half as int, pow2(53) - 1, half - b);
        assert(last_place(n, q) == hi.exponent() - 1);
        assert(div_round_even(n, half) == pow2(53));
        assert(rounded_magnitude(n, q) == hi.magnitude());
    }
}

impl Scalar {
    /// The quiet NaN.
    pub fn quiet_nan() -> (r: Scalar)
        ensures
            r == nan_value(),
    {
        Scalar { bits: NAN_BITS }
    }

    /// `self * rhs`, correctly rounded.
    pub fn times(self, rhs: Scalar) -> (r: Scalar)
        ensures
            r == product(self, rhs),
    {
        let negative: bool = self.is_negative() != rhs.is_negative();
        let am: u64 = self.magnitude_bits();
        let bm: u64 = rhs.magnitude_bits();
        if am > INFINITY_BITS || bm > INFINITY_BITS {
            return Scalar::quiet_nan();
        }
        if am == INFINITY_BITS || bm == INFINITY_BITS {
            if am == 0 || bm == 0 {
                return Scalar::quiet_nan();
            }
            return Scalar::with_sign(negative, INFINITY_BITS);
        }
        let sa: u64 = self.significand_bits();
        let sb: u64 = rhs.significand_bits();
        proof {
            assert(sa * sb < 0x0400_0000_0000_0000_0000_0000_0000) by (nonlinear_arith)
                requires
                    sa < 0x0020_0000_0000_0000,
                    sb < 0x0020_0000_0000_0000,
            ;
        }
        let n: u128 = (sa as u128) * (sb as u128);
        let q: i64 = self.exponent_value() + rhs.exponent_value();
        Scalar::round(negative, n, q)
    }

    /// `self + rhs`, correctly rounded.
    pub fn plus(self, rhs: Scalar) -> (r: Scalar)
        ensures
            r == sum(self, rhs),
    {
        let am: u64 = self.magnitude_bits();
        let bm: u64 = rhs.magnitude_bits();
        if am > INFINITY_BITS || bm > INFINITY_BITS {
            return Scalar::quiet_nan();
        }
        if am == INFINITY_BITS {
            if bm == INFINITY_BITS && self.is_negative() != rhs.is_negative() {
                return Scalar::quiet_nan();
            }
            return self;
        }
        if bm == INFINITY_BITS {
            return rhs;
        }
        if self.exponent_value() >= rhs.exponent_value() {
            Scalar::plus_ordered(self, rhs)
        } else {
            proof {
                lemma_sum_commutes(self, rhs);
            }
            Scalar::plus_ordered(rhs, self)
        }
    }

    /// The sum of two finite numbers, the first with the larger exponent.
    fn plus_ordered(hi: Scalar, lo: Scalar) -> (r: Scalar)
        requires
            hi.finite(),
            lo.finite(),
            hi.exponent() >= lo.exponent(),
        ensures
            r == sum(hi, lo),
    {
        let q: i64 = lo.exponent_value();
        let gap: i64 = hi.exponent_value() - q;
        if gap > 64 {
            proof {
                lemma_sum_far(hi, lo);
            }
            return hi;
        }
        let unit: u128 = pow2_u128(gap as u32);
        let a: u64 = hi.significand_bits();
        let b: u64 = lo.significand_bits();
        proof {
            lemma2_to64();
            lemma2_to64_rest();
            lemma_pow2_monotone(gap as nat, 64);
            assert(a * unit < 0x0020_0000_0000_0000 * 0x1_0000_0000_0000_0000) by (nonlinear_arith)
                requires
                    a < 0x0020_0000_0000_0000,
                    0 < unit <= 0x1_0000_0000_0000_0000,
            ;
            assert(pow2(0) == 1);
            assert(b * pow2(0) == b);
        }
        let x: u128 = (a as u128) * unit;
        let y: u128 = b as u128;
        if hi.is_negative() == lo.is_negative() {
            Scalar::round(hi.is_negative(), x + y, q)
        } else if x > y {
            Scalar::round(hi.is_negative(), x - y, q)
        } else if x < y {
            Scalar::round(lo.is_negative(), y - x, q)
        } else {
            Scalar::zero()
        }
    }
}

} // verus!

//! Random draws, and the perturbation that a draw stands for.
//!
//! A draw is an integer between `0` and `2^53`. It stands for the point
//! `(draw - 2^52) / 2^52` of the interval `[-1, 1]`, which binary64 holds
//! exactly; a weight is perturbed by the mutation rate times that point.

use vstd::prelude::*;
use vstd::arithmetic::power2::{pow2, lemma2_to64, lemma2_to64_rest, lemma_pow2_pos};
use rand::Rng;
use crate::arithmetic::{product, sum};
use crate::power::lemma_pow2_split;
use crate::rounding::{
    ground, lemma_magnitude_parts, lemma_rounded_at_most, lemma_rounded_exact,
};
use crate::scalar::{rounded, Scalar, HIDDEN_BIT};

verus! {

/// The largest draw: `2^53`.
pub const DRAW_LIMIT: u64 = 0x0020_0000_0000_0000;

/// The pattern of the number one.
pub const ONE_BITS: u64 = 0x3ff0_0000_0000_0000;

/// `rand::rngs::ThreadRng`: the handle is carried through, nothing is
/// known of what it holds.
#[verifier::external_type_specification]
#[verifier::external_body]
pub struct ExThreadRng(rand::rngs::ThreadRng);

/// `rand::thread_rng`: a handle to the generator of the current thread.
/// Nothing is claimed of the handle. The first call on a thread seeds the
/// generator from the system and panics if the system gives no seed; no
/// argument decides that.
pub assume_specification[ rand::thread_rng ]() -> (rng: rand::rngs::ThreadRng);

/// `Rng::gen_range` on the inclusive range `low..=high` of `u64`: the value
/// drawn lies in the range. The call panics on an empty range, which the
/// precondition leaves out.
#[verifier::external_body]
pub(crate) fn draw_between(rng: &mut rand::rngs::ThreadRng, low: u64, high: u64) -> (draw: u64)
    requires
        low <= high,
    ensures
        low <= draw <= high,
{
    rng.gen_range(low..=high)
}

/// How far `draw` lies from the centre `2^52`.
pub open spec fn offset(draw: u64) -> nat {
    if draw < HIDDEN_BIT {
        (HIDDEN_BIT - draw) as nat
    } else {
        (draw - HIDDEN_BIT) as nat
    }
}

/// The number that `draw` stands for, `(draw - 2^52) / 2^52`: for a draw of
/// at most `DRAW_LIMIT`, a point of `[-1, 1]`.
pub open spec fn unit_point(draw: u64) -> Scalar {
    rounded(draw < HIDDEN_BIT, offset(draw), -52)
}

/// `weight` moved by `rate` times the point that `draw` stands for.
pub open spec fn perturbed(weight: Scalar, rate: Scalar, draw: u64) -> Scalar {
    sum(weight, product(rate, unit_point(draw)))
}

/// Every draw stands for a number between minus one and one.
pub proof fn lemma_unit_point_in_range(draw: u64)
    requires
        draw <= DRAW_LIMIT,
    ensures
        unit_point(draw).finite(),
        unit_point(draw).magnitude() <= ONE_BITS,
{
    lemma2_to64();
    lemma2_to64_rest();
    let one = Scalar { bits: ONE_BITS };
    assert(one.significand() == HIDDEN_BIT);
    assert(one.exponent() == -52);
    assert(offset(draw) * pow2(1022) <= one.significand() * pow2(1022)) by (nonlinear_arith)
        requires
            offset(draw) <= one.significand(),
    ;
    lemma_rounded_at_most(offset(draw), -52, one);
}

/// A perturbation is never larger than the rate: every weight is moved
/// by a number between minus the rate and the rate.
pub proof fn lemma_perturbation_within_rate(rate: Scalar, draw: u64)
    requires
        rate.finite(),
        draw <= DRAW_LIMIT,
    ensures
        product(rate, unit_point(draw)).finite(),
        product(rate, unit_point(draw)).magnitude() <= rate.magnitude(),
{
    lemma2_to64();
    lemma2_to64_rest();
    lemma_unit_point_in_range(draw);
    lemma_magnitude_parts(rate);
    let point = unit_point(draw);
    let k = offset(draw);
    let big = rate.significand();
    if k == 0 {
        assert(point.significand() == 0);
        assert(big * point.significand() == 0) by (nonlinear_arith)
            requires
                point.significand() == 0,
        ;
    } else {
        lemma_rounded_exact(draw < HIDDEN_BIT, k, -52);
        let small = point.significand();
        let down = (-point.exponent()) as nat;
        let q = rate.exponent() + point.exponent();
        let fine = pow2((q - ground(q)) as nat);
        lemma_pow2_split(52, (down - 52) as nat);
        lemma_pow2_split(down, (q - ground(q)) as nat);
        lemma_pow2_pos((q - ground(q)) as nat);
        assert(big * small * fine <= big * (pow2(down) * fine)) by (nonlinear_arith)
            requires
                small == k * pow2((down - 52) as nat),
                k <= pow2(52),
                pow2(down) == pow2(52) * pow2((down - 52) as nat),
                pow2((down - 52) as nat) > 0,
                fine > 0,
                big >= 0,
        ;
        lemma_rounded_at_most(big * small, q, rate);
    }
}

impl Scalar {
    /// The number `(draw - 2^52) / 2^52`: for a draw of at most
    /// `DRAW_LIMIT`, a point of `[-1, 1]`.
    pub fn from_draw(draw: u64) -> (point: Scalar)
        ensures
            point == unit_point(draw),
    {
        if draw < HIDDEN_BIT {
            let below: u64 = HIDDEN_BIT - draw;
            Scalar::round(true, below as u128, -52)
        } else {
            let above: u64 = draw - HIDDEN_BIT;
            Scalar::round(false, above as u128, -52)
        }
    }

    /// This weight moved by `rate` times the point that `draw` stands for:
    /// a draw above the centre `2^52` moves it with the sign of `rate`, one
    /// below the centre against it.
    pub fn perturb(self, rate: Scalar, draw: u64) -> (moved: Scalar)
        ensures
            moved == perturbed(self, rate, draw),
    {
        self.plus(rate.times(Scalar::from_draw(draw)))
    }
}

} // verus!

//! IEEE 754 binary64 numbers, held as their 64-bit patterns.
//!
//! A finite pattern stands for `(-1)^s * significand * 2^exponent`, with an
//! integer significand below `2^53` and an exponent of at least `-1074`.
//! Rounding is to nearest, ties to the even significand.

use vstd::prelude::*;
use vstd::arithmetic::div_mod::{
    lemma_basic_div, lemma_div_is_ordered_by_denominator, lemma_small_mod,
};
use vstd::arithmetic::mul::lemma_mul_strict_inequality;
use vstd::arithmetic::power2::{pow2, lemma2_to64, lemma2_to64_rest, lemma_pow2_pos};
use crate::power::{
    bit_length, floor_log2, lemma_floor_log2_bounds, lemma_pow2_monotone, lemma_pow2_split,
    pow2_u128,
};

verus! {

/// The bit that holds the sign.
pub const SIGN_BIT: u64 = 0x8000_0000_0000_0000;

/// The magnitude of an infinity: all exponent bits set, fraction zero.
pub const INFINITY_BITS: u64 = 0x7ff0_0000_0000_0000;

/// The quiet NaN that every invalid operation returns.
pub const NAN_BITS: u64 = 0x7ff8_0000_0000_0000;

/// `2^52`: the implicit leading bit of a normal significand.
pub const HIDDEN_BIT: u64 = 0x0010_0000_0000_0000;

/// A binary64 number as its bit pattern.
///
/// Two scalars are equal when their patterns are: a NaN equals itself, and
/// the two zeros differ.
#[derive(Clone, Copy, Debug, PartialEq, Eq, Structural)]
pub struct Scalar {
    pub bits: u64,
}

/// The pattern with the given sign and magnitude.
pub open spec fn signed(negative: bool, magnitude: nat) -> Scalar {
    Scalar { bits: (if negative { SIGN_BIT + magnitude } else { magnitude as int }) as u64 }
}

/// `n / d` rounded to the nearest integer, a tie going to the even one.
pub open spec fn div_round_even(n: nat, d: nat) -> nat {
    let quotient = n / d;
    let rest = n % d;
    if 2 * rest > d || (2 * rest == d && quotient % 2 == 1) {
        quotient + 1
    } else {
        quotient
    }
}

/// The exponent of the last place that binary64 keeps of `n * 2^q`.
pub open spec fn last_place(n: nat, q: int) -> int {
    let place = floor_log2(n) + q - 52;
    if place < -1074 {
        -1074
    } else {
        place
    }
}

/// The significand kept of `n * 2^q`: its value in units of the last place,
/// exact where the last place is not above `q`, rounded otherwise.
pub open spec fn kept(n: nat, q: int) -> nat {
    let p = last_place(n, q);
    if p <= q {
        n * pow2((q - p) as nat)
    } else {
        div_round_even(n, pow2((p - q) as nat))
    }
}

/// The magnitude bits of `n * 2^q` rounded to binary64.
///
/// With `p` the last place kept and `m` the significand kept, the pattern is
/// `(p + 1074) * 2^52 + m`: for a subnormal result `p` is `-1074` and `m` is
/// the fraction, for a normal one `m` carries the hidden bit into the
/// exponent field, and `m == 2^53` moves on to the next binade. A pattern
/// that reaches the exponent of infinity is infinity.
pub open spec fn rounded_magnitude(n: nat, q: int) -> nat {
    if n == 0 {
        0
    } else {
        let raw = (last_place(n, q) + 1074) * HIDDEN_BIT + kept(n, q);
        if raw >= INFINITY_BITS {
            INFINITY_BITS as nat
        } else {
            raw as nat
        }
    }
}

/// The binary64 number nearest to `(-1)^negative * n * 2^q`.
pub open spec fn rounded(negative: bool, n: nat, q: int) -> Scalar {
    signed(negative, rounded_magnitude(n, q))
}

impl Scalar {
    /// Whether the sign bit is set.
    pub open spec fn negative(self) -> bool {
        self.bits >= SIGN_BIT
    }

    /// The pattern without its sign bit.
    pub open spec fn magnitude(self) -> nat {
        if self.bits >= SIGN_BIT {
            (self.bits - SIGN_BIT) as nat
        } else {
            self.bits as nat
        }
    }

    /// Whether the pattern is a NaN: all exponent bits set, fraction not zero.
    pub open spec fn nan(self) -> bool {
        self.magnitude() > INFINITY_BITS
    }

    /// Whether the pattern is an infinity.
    pub open spec fn infinite(self) -> bool {
        self.magnitude() == INFINITY_BITS
    }

    /// Whether the pattern is a number: neither an infinity nor a NaN.
    pub open spec fn finite(self) -> bool {
        self.magnitude() < INFINITY_BITS
    }

    /// The integer significand of a finite number.
    pub open spec fn significand(self) -> nat {
        let m = self.magnitude();
        if m < HIDDEN_BIT {
            m
        } else {
            (HIDDEN_BIT + m % (HIDDEN_BIT as nat)) as nat
        }
    }

    /// The power of two that scales the significand of a finite number.
    pub open spec fn exponent(self) -> int {
        let m = self.magnitude();
        if m < HIDDEN_BIT {
            -1074
        } else {
            m / (HIDDEN_BIT as nat) - 1075
        }
    }

    /// Positive zero.
    pub open spec fn zero_value() -> Scalar {
        Scalar { bits: 0 }
    }

    /// The number with the given pattern.
    pub fn from_bits(bits: u64) -> (r: Scalar)
        ensures
            r.bits == bits,
    {
        Scalar { bits }
    }

    /// The pattern of the number.
    pub fn to_bits(self) -> (bits: u64)
        ensures
            bits == self.bits,
    {
        self.bits
    }

    /// Positive zero.
    pub fn zero() -> (r: Scalar)
        ensures
            r == Scalar::zero_value(),
    {
        Scalar { bits: 0 }
    }

    /// The pattern with the given sign and magnitude.
    pub(crate) fn with_sign(negative: bool, magnitude: u64) -> (r: Scalar)
        requires
            magnitude < SIGN_BIT,
        ensures
            r == signed(negative, magnitude as nat),
    {
        if negative {
            Scalar { bits: SIGN_BIT + magnitude }
        } else {
            Scalar { bits: magnitude }
        }
    }

    /// Whether the sign bit is set.
    pub fn is_negative(self) -> (b: bool)
        ensures
            b == self.negative(),
    {
        self.bits >= SIGN_BIT
    }

    /// The pattern without its sign bit.
    pub fn magnitude_bits(self) -> (m: u64)
        ensures
            m == self.magnitude(),
            m < SIGN_BIT,
    {
        if self.bits >= SIGN_BIT {
            self.bits - SIGN_BIT
        } else {
            self.bits
        }
    }

    /// Whether the pattern is a NaN.
    pub fn is_nan(self) -> (b: bool)
        ensures
            b == self.nan(),
    {
        self.magnitude_bits() > INFINITY_BITS
    }

    /// Whether the pattern is neither an infinity nor a NaN.
    pub fn is_finite(self) -> (b: bool)
        ensures
            b == self.finite(),
    {
        self.magnitude_bits() < INFINITY_BITS
    }

    /// The integer significand of a finite number.
    pub fn significand_bits(self) -> (s: u64)
        ensures
            s == self.significand(),
            s < 2 * HIDDEN_BIT,
    {
        let m: u64 = self.magnitude_bits();
        if m < HIDDEN_BIT {
            m
        } else {
            HIDDEN_BIT + m % HIDDEN_BIT
        }
    }

    /// The power of two that scales the significand of a finite number.
    pub fn exponent_value(self) -> (e: i64)
        ensures
            e == self.exponent(),
            -1074 <= e <= 972,
    {
        let m: u64 = self.magnitude_bits();
        if m < HIDDEN_BIT {
            -1074
        } else {
            (m / HIDDEN_BIT) as i64 - 1075
        }
    }

    /// Rounds `(-1)^negative * n * 2^q` to the nearest binary64 number, a
    /// tie going to the even significand.
    pub fn round(negative: bool, n: u128, q: i64) -> (r: Scalar)
        ensures
            r == rounded(negative, n as nat, q as int),
    {
        if n == 0 {
            return Scalar::with_sign(negative, 0);
        }
        let len: u32 = bit_length(n);
        proof {
            lemma2_to64();
            lemma2_to64_rest();
            lemma_floor_log2_bounds(n as nat);
        }
        if q > 1100 {
            return Scalar::with_sign(negative, INFINITY_BITS);
        }
        if q < -1400 {
            proof {
                lemma_rounds_to_nothing(n as nat, (-1074 - q) as nat);
            }
            return Scalar::with_sign(negative, 0);
        }
        let top: i64 = (len as i64 - 1) + q;
        let place: i64 = if top - 52 < -1074 { -1074 } else { top - 52 };
        assert(place == last_place(n as nat, q as int));
        if place > 972 {
            return Scalar::with_sign(negative, INFINITY_BITS);
        }
        let kept: u128 = if place <= q {
            let shift: u32 = (q - place) as u32;
            let unit: u128 = pow2_u128(shift);
            proof {
                lemma_pow2_split(len as nat, shift as nat);
                lemma_pow2_monotone((len + shift) as nat, 53);
                lemma_mul_strict_inequality(n as int, pow2(len as nat) as int, unit as int);
            }
            n * unit
        } else {
            let shift: i64 = place - q;
            if shift > len as i64 {
                proof {
                    lemma_rounds_to_nothing(n as nat, shift as nat);
                }
                0
            } else if shift == 128 {
                proof {
                    lemma_pow2_split(127, 1);
                    lemma_pow2_pos(128);
                    lemma_basic_div(n as int, pow2(128) as int);
                    lemma_small_mod(n as nat, pow2(128));
                }
                if n > pow2_u128(127) {
                    1
                } else {
                    0
                }
            } else {
                let unit: u128 = pow2_u128(shift as u32);
                proof {
                    lemma_pow2_split((shift - 1) as nat, 1);
                    lemma_div_is_ordered_by_denominator(n as int, 2, unit as int);
                }
                let half: u128 = unit / 2;
                let quotient: u128 = n / unit;
                let rest: u128 = n % unit;
                if rest > half || (rest == half && quotient % 2 == 1) {
                    quotient + 1
                } else {
                    quotient
                }
            }
        };
        let raw: u128 = ((place + 1074) as u128) * (HIDDEN_BIT as u128) + kept;
        if raw >= INFINITY_BITS as u128 {
            Scalar::with_sign(negative, INFINITY_BITS)
        } else {
            Scalar::with_sign(negative, raw as u64)
        }
    }
}

/// A number below half of the divisor `2^shift` rounds to zero.
proof fn lemma_rounds_to_nothing(n: nat, shift: nat)
    requires
        n > 0,
        shift > floor_log2(n) + 1,
    ensures
        div_round_even(n, pow2(shift)) == 0,
{
    let d = pow2(shift);
    lemma_floor_log2_bounds(n);
    lemma_pow2_monotone(floor_log2(n) + 2, shift);
    lemma_pow2_split(floor_log2(n) + 1, 1);
    lemma2_to64();
    lemma_basic_div(n as int, d as int);
    lemma_small_mod(n, d);
}

} // verus!

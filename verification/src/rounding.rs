//! What rounding means: a binary64 number is kept as it is, no rounded
//! value steps over a binary64 number, and no binary64 number lies nearer
//! to a value than the one it is rounded to.

use vstd::prelude::*;
use vstd::arithmetic::div_mod::{lemma_basic_div, lemma_fundamental_div_mod};
use vstd::arithmetic::power2::{pow2, lemma2_to64, lemma2_to64_rest, lemma_pow2_pos};
use crate::power::{floor_log2, lemma_floor_log2_bounds, lemma_pow2_monotone, lemma_pow2_split};
use crate::scalar::{
    kept, last_place, rounded, rounded_magnitude, signed, Scalar, HIDDEN_BIT, INFINITY_BITS,
};

verus! {

/// A finite number is the pattern that its exponent and significand spell.
pub proof fn lemma_magnitude_parts(x: Scalar)
    requires
        x.finite(),
    ensures
        x.magnitude() == (x.exponent() + 1074) * HIDDEN_BIT + x.significand(),
        x.significand() < 2 * HIDDEN_BIT,
        -1074 <= x.exponent() <= 971,
        x.exponent() > -1074 ==> x.significand() >= HIDDEN_BIT,
        x == signed(x.negative(), x.magnitude()),
{
}

/// The significand kept has at most 53 bits, or is `2^53` itself; above the
/// least exponent it has the hidden bit.
pub proof fn lemma_kept_bounds(n: nat, q: int)
    requires
        n > 0,
    ensures
        kept(n, q) <= 2 * HIDDEN_BIT,
        last_place(n, q) > -1074 ==> kept(n, q) >= HIDDEN_BIT,
        last_place(n, q) > -1074 && last_place(n, q) > q ==> n / pow2(
            (last_place(n, q) - q) as nat,
        ) >= HIDDEN_BIT,
{
    lemma2_to64();
    lemma2_to64_rest();
    let fl = floor_log2(n);
    let p = last_place(n, q);
    lemma_floor_log2_bounds(n);
    if p <= q {
        let s = (q - p) as nat;
        let unit = pow2(s);
        lemma_pow2_split(fl + 1, s);
        lemma_pow2_split(fl, s);
        lemma_pow2_monotone(fl + 1 + s, 53);
        assert(n * unit < pow2(fl + 1) * unit) by (nonlinear_arith)
            requires
                n < pow2(fl + 1),
                unit > 0,
        ;
        assert(pow2(fl) * unit <= n * unit) by (nonlinear_arith)
            requires
                pow2(fl) <= n,
                unit > 0,
        ;
        if p > -1074 {
            assert(fl + s == 52);
        }
    } else {
        let s = (p - q) as nat;
        let unit = pow2(s);
        lemma_pow2_pos(s);
        lemma_fundamental_div_mod(n as int, unit as int);
        let quotient = n / unit;
        if fl + 1 >= s {
            let over = (fl + 1 - s) as nat;
            lemma_pow2_split(over, s);
            lemma_pow2_monotone(over, 53);
            assert(quotient < pow2(over)) by (nonlinear_arith)
                requires
                    n == unit * quotient + n % unit,
                    0 <= n % unit,
                    n < pow2(over) * unit,
                    unit > 0,
            ;
            if p > -1074 {
                assert(over == 53);
                lemma_pow2_split(52, s);
                assert(quotient >= pow2(52)) by (nonlinear_arith)
                    requires
                        n == unit * quotient + n % unit,
                        n % unit < unit,
                        n >= pow2(52) * unit,
                        unit > 0,
                ;
            }
        } else {
            lemma_pow2_monotone(fl + 1, s);
            lemma_basic_div(n as int, unit as int);
        }
    }
}

/// A value with at most 53 significant bits, at or above the least
/// exponent and below the exponent of infinity, is a binary64 number:
/// rounding gives the number with that very value.
pub proof fn lemma_rounded_exact(negative: bool, n: nat, q: int)
    requires
        0 < n < 2 * HIDDEN_BIT,
        -1074 <= q,
        floor_log2(n) + q <= 1023,
    ensures
        rounded(negative, n, q).finite(),
        rounded(negative, n, q).negative() == negative,
        rounded(negative, n, q).exponent() == last_place(n, q),
        last_place(n, q) <= q,
        rounded(negative, n, q).significand() == n * pow2((q - last_place(n, q)) as nat),
{
    lemma2_to64();
    lemma2_to64_rest();
    lemma_floor_log2_bounds(n);
    let fl = floor_log2(n);
    if fl > 52 {
        lemma_pow2_monotone(53, fl);
    }
    lemma_kept_bounds(n, q);
    let p = last_place(n, q);
    let m = kept(n, q);
    let raw = (p + 1074) * HIDDEN_BIT + m;
    assert(raw == rounded_magnitude(n, q));
    if p > -1074 {
        assert(m < 2 * HIDDEN_BIT) by {
            let s = (q - p) as nat;
            lemma_pow2_split(fl + 1, s);
            assert(n * pow2(s) < pow2(fl + 1) * pow2(s)) by (nonlinear_arith)
                requires
                    n < pow2(fl + 1),
                    pow2(s) > 0,
            ;
        }
        assert(raw / (HIDDEN_BIT as int) == p + 1075);
        assert(raw % (HIDDEN_BIT as int) == m - HIDDEN_BIT);
    } else {
        if m >= 2 * HIDDEN_BIT {
            let s = (q - p) as nat;
            // n * 2^s == 2^53 with n < 2^53 and fl + q - 52 <= -1074 = p
            lemma_pow2_split(fl + 1, s);
            lemma_pow2_monotone(fl + 1 + s, 53);
            assert(n * pow2(s) < pow2(fl + 1) * pow2(s)) by (nonlinear_arith)
                requires
                    n < pow2(fl + 1),
                    pow2(s) > 0,
            ;
        }
        if m >= HIDDEN_BIT {
            assert(raw / (HIDDEN_BIT as int) == 1);
            assert(raw % (HIDDEN_BIT as int) == m - HIDDEN_BIT);
        }
    }
}

/// Rounding keeps a binary64 number as it is.
pub proof fn lemma_rounded_fixed_point(x: Scalar)
    requires
        x.finite(),
    ensures
        rounded(x.negative(), x.significand(), x.exponent()) == x,
{
    lemma2_to64();
    lemma2_to64_rest();
    lemma_magnitude_parts(x);
    let n = x.significand();
    let q = x.exponent();
    if n > 0 {
        lemma_floor_log2_bounds(n);
        let fl = floor_log2(n);
        if fl > 52 {
            lemma_pow2_monotone(53, fl);
        }
        if q > -1074 && fl < 52 {
            lemma_pow2_monotone(fl + 1, 52);
        }
        assert(last_place(n, q) == q);
        assert(pow2(0) == 1);
        assert(kept(n, q) == n) by (nonlinear_arith)
            requires
                kept(n, q) == n * pow2(0),
                pow2(0) == 1,
        ;
    }
}

/// The exponent of a unit in which `n * 2^q` and every binary64 number
/// are whole: `q` or `-1074`, whichever is less.
pub open spec fn ground(q: int) -> int {
    if q < -1074 {
        q
    } else {
        -1074
    }
}

/// `n * 2^q` in units of `2^ground(q)`.
pub open spec fn exact(n: nat, q: int) -> nat {
    n * pow2((q - ground(q)) as nat)
}

/// The absolute value of the finite `x` in units of `2^ground(q)`.
pub open spec fn size(x: Scalar, q: int) -> nat {
    x.significand() * pow2((x.exponent() - ground(q)) as nat)
}

/// How far `n * 2^q` lies from the absolute value of the finite `x`, in
/// units of `2^ground(q)`.
pub open spec fn distance(n: nat, q: int, x: Scalar) -> nat {
    if exact(n, q) <= size(x, q) {
        (size(x, q) - exact(n, q)) as nat
    } else {
        (exact(n, q) - size(x, q)) as nat
    }
}

/// `exact(n, q)` as a multiple of the unit `2^(b - ground(q))`.
proof fn lemma_exact_rebased(n: nat, q: int, b: int)
    requires
        ground(q) <= b <= q,
    ensures
        exact(n, q) == n * pow2((q - b) as nat) * pow2((b - ground(q)) as nat),
        pow2((b - ground(q)) as nat) > 0,
        pow2((q - b) as nat) > 0,
{
    let up = (q - b) as nat;
    let down = (b - ground(q)) as nat;
    lemma_pow2_split(up, down);
    assert(n * (pow2(up) * pow2(down)) == n * pow2(up) * pow2(down)) by (nonlinear_arith);
}

/// `size(x, q)` as a multiple of the unit `2^(b - ground(q))`.
proof fn lemma_size_rebased(x: Scalar, q: int, b: int)
    requires
        ground(q) <= b <= x.exponent(),
    ensures
        size(x, q) == x.significand() * pow2((x.exponent() - b) as nat) * pow2(
            (b - ground(q)) as nat,
        ),
        pow2((b - ground(q)) as nat) > 0,
        pow2((x.exponent() - b) as nat) > 0,
{
    let up = (x.exponent() - b) as nat;
    let down = (b - ground(q)) as nat;
    lemma_pow2_split(up, down);
    assert(x.significand() * (pow2(up) * pow2(down)) == x.significand() * pow2(up) * pow2(down))
        by (nonlinear_arith);
}

/// Rounding does not step over a binary64 number from below: a value
/// that is at most `|x|` rounds to at most `|x|`.
pub proof fn lemma_rounded_at_most(n: nat, q: int, x: Scalar)
    requires
        x.finite(),
        exact(n, q) <= size(x, q),
    ensures
        rounded_magnitude(n, q) <= x.magnitude(),
{
    lemma2_to64();
    lemma2_to64_rest();
    lemma_magnitude_parts(x);
    if n > 0 {
        let big = x.significand();
        let e = x.exponent();
        let fl = floor_log2(n);
        let p = last_place(n, q);
        let m = kept(n, q);
        let base = if q <= e { q } else { e };
        let up = pow2((q - base) as nat);
        let over = pow2((e - base) as nat);
        lemma_floor_log2_bounds(n);
        lemma_kept_bounds(n, q);
        lemma_exact_rebased(n, q, base);
        lemma_size_rebased(x, q, base);
        assert(n * up <= big * over) by (nonlinear_arith)
            requires
                n * up * pow2((base - ground(q)) as nat) <= big * over * pow2(
                    (base - ground(q)) as nat,
                ),
                pow2((base - ground(q)) as nat) > 0,
        ;
        if p > e {
            // the value has its leading bit above every bit of `x`
            lemma_pow2_split(fl, (q - base) as nat);
            lemma_pow2_split(53, (e - base) as nat);
            lemma_pow2_monotone((e + 53 - base) as nat, (fl + q - base) as nat);
            assert(pow2(fl) * up <= n * up) by (nonlinear_arith)
                requires
                    pow2(fl) <= n,
                    up > 0,
            ;
            assert(big * over < pow2(53) * over) by (nonlinear_arith)
                requires
                    big < pow2(53),
                    over > 0,
            ;
            assert(false);
        } else if p < e {
            assert(rounded_magnitude(n, q) <= x.magnitude());
        } else if p <= q {
            assert(pow2(0) == 1);
            assert(m <= big) by (nonlinear_arith)
                requires
                    m == n * up,
                    n * up <= big * over,
                    over == 1,
            ;
        } else {
            let unit = pow2((p - q) as nat);
            assert(pow2(0) == 1);
            assert(n <= big * unit) by (nonlinear_arith)
                requires
                    n * up <= big * unit,
                    up == 1,
            ;
            lemma_fundamental_div_mod(n as int, unit as int);
            let quotient = n / unit;
            let rest = n % unit;
            assert(quotient < big || (quotient == big && rest == 0)) by (nonlinear_arith)
                requires
                    n == unit * quotient + rest,
                    0 <= rest < unit,
                    n <= big * unit,
                    unit > 0,
                    quotient >= 0,
                    big >= 0,
            ;
            assert(m <= big);
        }
    }
}

/// Rounding does not step over a binary64 number from above: a value
/// that is at least `|x|` rounds to at least `|x|`.
pub proof fn lemma_rounded_at_least(n: nat, q: int, x: Scalar)
    requires
        x.finite(),
        exact(n, q) >= size(x, q),
    ensures
        rounded_magnitude(n, q) >= x.magnitude(),
{
    lemma2_to64();
    lemma2_to64_rest();
    lemma_magnitude_parts(x);
    let big = x.significand();
    let e = x.exponent();
    let base = if q <= e { q } else { e };
    let up = pow2((q - base) as nat);
    let over = pow2((e - base) as nat);
    lemma_exact_rebased(n, q, base);
    lemma_size_rebased(x, q, base);
    assert(n * up >= big * over) by (nonlinear_arith)
        requires
            n * up * pow2((base - ground(q)) as nat) >= big * over * pow2(
                (base - ground(q)) as nat,
            ),
            pow2((base - ground(q)) as nat) > 0,
    ;
    if n == 0 {
        assert(big == 0) by (nonlinear_arith)
            requires
                0 * up >= big * over,
                over > 0,
                big >= 0,
        ;
    } else {
        let fl = floor_log2(n);
        let p = last_place(n, q);
        let m = kept(n, q);
        lemma_floor_log2_bounds(n);
        lemma_kept_bounds(n, q);
        if p < e {
            // `x` has its leading bit above every bit of the value
            assert(big >= HIDDEN_BIT);
            lemma_pow2_split(fl + 1, (q - base) as nat);
            lemma_pow2_split(52, (e - base) as nat);
            lemma_pow2_monotone((fl + 1 + q - base) as nat, (e + 52 - base) as nat);
            assert(n * up < pow2(fl + 1) * up) by (nonlinear_arith)
                requires
                    n < pow2(fl + 1),
                    up > 0,
            ;
            assert(pow2(52) * over <= big * over) by (nonlinear_arith)
                requires
                    pow2(52) <= big,
                    over > 0,
            ;
            assert(false);
        } else if p > e {
            assert(rounded_magnitude(n, q) >= x.magnitude());
        } else if p <= q {
            assert(pow2(0) == 1);
            assert(m >= big) by (nonlinear_arith)
                requires
                    m == n * up,
                    n * up >= big * over,
                    over == 1,
            ;
        } else {
            let unit = pow2((p - q) as nat);
            assert(pow2(0) == 1);
            assert(n >= big * unit) by (nonlinear_arith)
                requires
                    n * up >= big * unit,
                    up == 1,
            ;
            lemma_fundamental_div_mod(n as int, unit as int);
            let quotient = n / unit;
            assert(quotient >= big) by (nonlinear_arith)
                requires
                    n == unit * quotient + n % unit,
                    n % unit < unit,
                    n >= big * unit,
                    unit > 0,
            ;
            assert(m >= big);
        }
    }
}

/// Two binary64 numbers of the same absolute value have the same magnitude
/// bits: a value has one pattern only.
pub proof fn lemma_same_size_same_magnitude(x: Scalar, y: Scalar, q: int)
    requires
        x.finite(),
        y.finite(),
        size(x, q) == size(y, q),
    ensures
        x.magnitude() == y.magnitude(),
{
    lemma_magnitude_parts(x);
    lemma_magnitude_parts(y);
    // the same sizes in units of 2^-1074
    let down = (-1074 - ground(q)) as nat;
    lemma_size_rebased(x, q, -1074);
    lemma_size_rebased(y, q, -1074);
    let a = x.significand() * pow2((x.exponent() + 1074) as nat);
    let b = y.significand() * pow2((y.exponent() + 1074) as nat);
    assert(a == b) by (nonlinear_arith)
        requires
            a * pow2(down) == b * pow2(down),
            pow2(down) > 0,
    ;
    assert(exact(x.significand(), x.exponent()) == size(y, x.exponent()));
    assert(exact(y.significand(), y.exponent()) == size(x, y.exponent()));
    lemma_rounded_fixed_point(x);
    lemma_rounded_fixed_point(y);
    lemma_rounded_at_most(x.significand(), x.exponent(), y);
    lemma_rounded_at_most(y.significand(), y.exponent(), x);
    assert(rounded(x.negative(), x.significand(), x.exponent()).magnitude() == rounded_magnitude(
        x.significand(),
        x.exponent(),
    ));
    assert(rounded(y.negative(), y.significand(), y.exponent()).magnitude() == rounded_magnitude(
        y.significand(),
        y.exponent(),
    ));
}

/// Where the result is finite, its absolute value is the significand kept
/// times the unit of the last place.
pub proof fn lemma_rounded_size(n: nat, q: int)
    requires
        n > 0,
        rounded_magnitude(n, q) < INFINITY_BITS,
    ensures
        rounded(false, n, q).finite(),
        rounded(false, n, q).magnitude() == rounded_magnitude(n, q),
        size(rounded(false, n, q), q) == kept(n, q) * pow2((last_place(n, q) - ground(q)) as nat),
{
    lemma2_to64();
    lemma2_to64_rest();
    lemma_kept_bounds(n, q);
    let x = rounded(false, n, q);
    let p = last_place(n, q);
    let m = kept(n, q);
    let raw = (p + 1074) * HIDDEN_BIT + m;
    let unit = pow2((p - ground(q)) as nat);
    assert(x.magnitude() == raw);
    if m == 2 * HIDDEN_BIT {
        assert(raw / (HIDDEN_BIT as int) == p + 1076);
        assert(raw % (HIDDEN_BIT as int) == 0);
        assert(x.exponent() == p + 1);
        assert(x.significand() == HIDDEN_BIT);
        lemma_pow2_split(1, (p - ground(q)) as nat);
        assert(HIDDEN_BIT * (2 * unit) == 2 * HIDDEN_BIT * unit) by (nonlinear_arith);
    } else if m >= HIDDEN_BIT {
        assert(raw / (HIDDEN_BIT as int) == p + 1075);
        assert(raw % (HIDDEN_BIT as int) == m - HIDDEN_BIT);
    } else {
        assert(p == -1074);
    }
}

/// Rounding gives a nearest binary64 number, and of two nearest the one
/// with the even pattern: where the result is finite, no finite `y` lies
/// nearer to the value, and a `y` of another magnitude lies as near only
/// if the result is even.
pub proof fn lemma_rounded_nearest(n: nat, q: int, y: Scalar)
    requires
        rounded_magnitude(n, q) < INFINITY_BITS,
        y.finite(),
    ensures
        distance(n, q, rounded(false, n, q)) <= distance(n, q, y),
        distance(n, q, rounded(false, n, q)) == distance(n, q, y) && y.magnitude()
            != rounded_magnitude(n, q) ==> rounded_magnitude(n, q) % 2 == 0,
{
    lemma2_to64();
    lemma2_to64_rest();
    lemma_magnitude_parts(y);
    let x = rounded(false, n, q);
    let g = ground(q);
    if n == 0 {
        assert(x.significand() == 0);
        assert(size(x, q) == 0) by (nonlinear_arith)
            requires
                size(x, q) == x.significand() * pow2((x.exponent() - g) as nat),
                x.significand() == 0,
        ;
        assert(exact(n, q) == 0) by (nonlinear_arith)
            requires
                exact(n, q) == n * pow2((q - g) as nat),
                n == 0,
        ;
    } else {
        lemma_rounded_size(n, q);
        lemma_kept_bounds(n, q);
        let p = last_place(n, q);
        let m = kept(n, q);
        let grid = pow2((p - g) as nat);
        let v = exact(n, q);
        let w = size(y, q);
        lemma_pow2_pos((p - g) as nat);
        assert(rounded_magnitude(n, q) % 2 == m % 2);
        if size(x, q) == w {
            lemma_same_size_same_magnitude(x, y, q);
        }
        if p <= q {
            // nothing is lost
            lemma_pow2_split((q - p) as nat, (p - g) as nat);
            assert(n * pow2((q - p) as nat) * grid == n * (pow2((q - p) as nat) * grid))
                by (nonlinear_arith);
            assert(size(x, q) == v);
        } else {
            let unit = pow2((p - q) as nat);
            let fine = pow2((q - g) as nat);
            let quotient = n / unit;
            let rest = n % unit;
            lemma_pow2_pos((p - q) as nat);
            lemma_pow2_pos((q - g) as nat);
            lemma_pow2_split((p - q) as nat, (q - g) as nat);
            lemma_fundamental_div_mod(n as int, unit as int);
            let low = quotient * grid;
            let high = (quotient + 1) * grid;
            assert(grid == unit * fine);
            assert(v == low + rest * fine && high == low + unit * fine) by (nonlinear_arith)
                requires
                    v == n * fine,
                    n == unit * quotient + rest,
                    low == quotient * grid,
                    high == (quotient + 1) * grid,
                    grid == unit * fine,
            ;
            // no binary64 number lies between the two neighbours on the grid
            assert(w <= low || w >= high) by {
                let e = y.exponent();
                let big = y.significand();
                if e >= p {
                    let steps = big * pow2((e - p) as nat);
                    lemma_pow2_split((e - p) as nat, (p - g) as nat);
                    assert(w == steps * grid) by (nonlinear_arith)
                        requires
                            w == big * pow2((e - g) as nat),
                            pow2((e - g) as nat) == pow2((e - p) as nat) * grid,
                            steps == big * pow2((e - p) as nat),
                    ;
                    assert(steps * grid <= quotient * grid || steps * grid >= (quotient + 1)
                        * grid) by (nonlinear_arith)
                        requires
                            grid > 0,
                            steps >= 0,
                            quotient >= 0,
                    ;
                } else {
                    let below = pow2((e - g) as nat);
                    lemma_pow2_pos((e - g) as nat);
                    lemma_pow2_split(53, (e - g) as nat);
                    lemma_pow2_split(52, (p - g) as nat);
                    lemma_pow2_monotone((53 + e - g) as nat, (52 + p - g) as nat);
                    assert(big * below < pow2(53) * below) by (nonlinear_arith)
                        requires
                            big < pow2(53),
                            below > 0,
                    ;
                    assert(pow2(52) * grid <= quotient * grid) by (nonlinear_arith)
                        requires
                            pow2(52) <= quotient,
                            grid > 0,
                    ;
                }
            }
            assert(rest * fine < unit * fine) by (nonlinear_arith)
                requires
                    rest < unit,
                    fine > 0,
            ;
            if m == quotient {
                assert(size(x, q) == low);
                assert(2 * rest <= unit);
                assert(2 * (rest * fine) <= unit * fine) by (nonlinear_arith)
                    requires
                        2 * rest <= unit,
                        fine > 0,
                ;
                if m % 2 == 1 {
                    assert(2 * rest < unit);
                    assert(2 * (rest * fine) < unit * fine) by (nonlinear_arith)
                        requires
                            2 * rest < unit,
                            fine > 0,
                    ;
                }
            } else {
                assert(m == quotient + 1);
                assert(size(x, q) == high);
                assert(2 * rest >= unit);
                assert(2 * (rest * fine) >= unit * fine) by (nonlinear_arith)
                    requires
                        2 * rest >= unit,
                        fine > 0,
                ;
                if m % 2 == 1 {
                    assert(2 * rest > unit);
                    assert(2 * (rest * fine) > unit * fine) by (nonlinear_arith)
                        requires
                            2 * rest > unit,
                            fine > 0,
                    ;
                }
            }
        }
    }
}

/// Rounding gives infinity exactly when the value is at least
/// `2^1024 - 2^970`: half a unit in the last place above the largest
/// finite number.
pub proof fn lemma_rounded_overflow(n: nat, q: int)
    ensures
        rounded_magnitude(n, q) == INFINITY_BITS <==> exact(n, q) >= (pow2(54) - 1) * pow2(
            (970 - ground(q)) as nat,
        ),
{
    lemma2_to64();
    lemma2_to64_rest();
    let g = ground(q);
    let half = pow2((970 - g) as nat);
    let fine = pow2((q - g) as nat);
    let v = exact(n, q);
    lemma_pow2_pos((970 - g) as nat);
    lemma_pow2_pos((q - g) as nat);
    if n == 0 {
        assert(v == 0) by (nonlinear_arith)
            requires
                v == n * fine,
                n == 0,
        ;
        assert((pow2(54) - 1) * half > 0) by (nonlinear_arith)
            requires
                pow2(54) - 1 > 0,
                half > 0,
        ;
    } else {
        let fl = floor_log2(n);
        let p = last_place(n, q);
        let m = kept(n, q);
        lemma_floor_log2_bounds(n);
        lemma_kept_bounds(n, q);
        lemma_pow2_split(fl, (q - g) as nat);
        lemma_pow2_split(fl + 1, (q - g) as nat);
        assert(pow2(fl) * fine <= v < pow2(fl + 1) * fine) by (nonlinear_arith)
            requires
                v == n * fine,
                pow2(fl) <= n < pow2(fl + 1),
                fine > 0,
        ;
        if p >= 972 {
            lemma_pow2_split(54, (970 - g) as nat);
            lemma_pow2_monotone((1024 - g) as nat, (fl + q - g) as nat);
            assert((pow2(54) - 1) * half <= pow2(54) * half) by (nonlinear_arith)
                requires
                    half > 0,
            ;
        } else if p <= 970 {
            lemma_pow2_split(53, (970 - g) as nat);
            lemma_pow2_monotone((fl + 1 + q - g) as nat, (1023 - g) as nat);
            assert(pow2(53) * half <= (pow2(54) - 1) * half) by (nonlinear_arith)
                requires
                    pow2(53) <= pow2(54) - 1,
                    half > 0,
            ;
        } else if p <= q {
            let grid = pow2((p - g) as nat);
            lemma_pow2_split((q - p) as nat, (p - g) as nat);
            lemma_pow2_split(1, (970 - g) as nat);
            lemma_pow2_split(fl + 1, (q - p) as nat);
            assert(m < pow2(53)) by (nonlinear_arith)
                requires
                    m == n * pow2((q - p) as nat),
                    n < pow2(fl + 1),
                    pow2((q - p) as nat) > 0,
                    pow2(fl + 1) * pow2((q - p) as nat) == pow2(53),
            ;
            assert(v < (pow2(54) - 1) * half) by (nonlinear_arith)
                requires
                    v == n * fine,
                    m == n * pow2((q - p) as nat),
                    fine == pow2((q - p) as nat) * grid,
                    grid == 2 * half,
                    m <= pow2(53) - 1,
                    pow2(54) == 2 * pow2(53),
                    half > 0,
            ;
        } else {
            let unit = pow2((p - q) as nat);
            let part = pow2((p - q - 1) as nat);
            let quotient = n / unit;
            let rest = n % unit;
            lemma_pow2_pos((p - q) as nat);
            lemma_pow2_pos((p - q - 1) as nat);
            lemma_pow2_split(1, (p - q - 1) as nat);
            lemma_pow2_split((p - q - 1) as nat, (q - g) as nat);
            lemma_fundamental_div_mod(n as int, unit as int);
            assert(unit == 2 * part);
            assert(half == part * fine);
            assert(quotient <= pow2(53) - 1) by {
                if quotient >= pow2(53) {
                    // n < 2^(fl + 1) = 2^53 * unit
                    lemma_pow2_split(53, (p - q) as nat);
                    assert(false) by (nonlinear_arith)
                        requires
                            n == unit * quotient + rest,
                            rest >= 0,
                            quotient >= pow2(53),
                            n < pow2(53) * unit,
                            unit > 0,
                    ;
                }
            }
            // in units of `part * fine`: the value is `n`, the bound `2^54 - 1`
            assert((v >= (pow2(54) - 1) * half) <==> (n >= (pow2(54) - 1) * part))
                by (nonlinear_arith)
                requires
                    v == n * fine,
                    half == part * fine,
                    fine > 0,
            ;
            assert((n >= (pow2(54) - 1) * part) <==> (quotient == pow2(53) - 1 && 2 * rest
                >= unit)) by (nonlinear_arith)
                requires
                    n == unit * quotient + rest,
                    0 <= rest < unit,
                    unit == 2 * part,
                    part > 0,
                    0 <= quotient <= pow2(53) - 1,
                    pow2(54) == 2 * pow2(53),
            ;
        }
    }
}

} // verus!

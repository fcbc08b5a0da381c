//! Powers of two on machine integers and the position of the highest set bit.

use vstd::prelude::*;
use vstd::arithmetic::power2::{
    pow2, lemma2_to64, lemma_pow2_adds, lemma_pow2_pos, lemma_pow2_strictly_increases,
    lemma_pow2_unfold,
};

verus! {

/// The `k` with `2^k <= n < 2^(k+1)`; `0` for `n == 0`.
pub open spec fn floor_log2(n: nat) -> nat
    decreases n,
{
    if n <= 1 {
        0
    } else {
        floor_log2(n / 2) + 1
    }
}

/// A positive `n` lies in the binade that `floor_log2` names.
pub proof fn lemma_floor_log2_bounds(n: nat)
    requires
        n > 0,
    ensures
        pow2(floor_log2(n)) <= n < pow2(floor_log2(n) + 1),
    decreases n,
{
    lemma2_to64();
    if n > 1 {
        lemma_floor_log2_bounds(n / 2);
        lemma_pow2_unfold(floor_log2(n / 2) + 1);
        lemma_pow2_unfold(floor_log2(n / 2) + 2);
    }
}

/// The binade of `n` determines `floor_log2(n)`.
pub proof fn lemma_floor_log2_unique(n: nat, k: nat)
    requires
        pow2(k) <= n < pow2(k + 1),
    ensures
        floor_log2(n) == k,
{
    lemma_pow2_pos(k);
    lemma_floor_log2_bounds(n);
    let f = floor_log2(n);
    if f < k {
        if f + 1 < k {
            lemma_pow2_strictly_increases(f + 1, k);
        }
    } else if f > k {
        if k + 1 < f {
            lemma_pow2_strictly_increases(k + 1, f);
        }
    }
}

/// `2^(a+b) == 2^a * 2^b`, and both factors are positive.
pub proof fn lemma_pow2_split(a: nat, b: nat)
    ensures
        pow2(a + b) == pow2(a) * pow2(b),
        pow2(a) > 0,
        pow2(b) > 0,
{
    lemma_pow2_adds(a, b);
    lemma_pow2_pos(a);
    lemma_pow2_pos(b);
}

/// `2^a <= 2^b` whenever `a <= b`.
pub proof fn lemma_pow2_monotone(a: nat, b: nat)
    requires
        a <= b,
    ensures
        pow2(a) <= pow2(b),
{
    if a < b {
        lemma_pow2_strictly_increases(a, b);
    }
}

/// The value of `2^128`, one past the largest `u128`.
pub proof fn lemma_pow2_128()
    ensures
        pow2(128) == 0x1_0000_0000_0000_0000_0000_0000_0000_0000,
{
    lemma2_to64();
    lemma_pow2_adds(64, 64);
}

/// The highest set bit of a `u128` is below position 128.
pub proof fn lemma_floor_log2_u128(n: u128)
    ensures
        floor_log2(n as nat) < 128,
{
    if n > 0 {
        lemma_floor_log2_bounds(n as nat);
        lemma_pow2_128();
        if floor_log2(n as nat) >= 128 {
            lemma_pow2_monotone(128, floor_log2(n as nat));
        }
    }
}

/// `2^k` as a machine integer.
pub fn pow2_u128(k: u32) -> (r: u128)
    requires
        k < 128,
    ensures
        r == pow2(k as nat),
{
    let mut r: u128 = 1;
    let mut i: u32 = 0;
    proof {
        lemma2_to64();
    }
    while i < k
        invariant
            i <= k,
            k < 128,
            r == pow2(i as nat),
        decreases k - i,
    {
        proof {
            lemma_pow2_unfold((i + 1) as nat);
            lemma_pow2_monotone((i + 1) as nat, 127);
            lemma_pow2_unfold(128);
            lemma_pow2_128();
        }
        r = r * 2;
        i = i + 1;
    }
    r
}

/// The number of bits needed to write `n`: `0` for `0`, else `floor_log2(n) + 1`.
pub fn bit_length(n: u128) -> (len: u32)
    ensures
        len <= 128,
        n == 0 ==> len == 0,
        n > 0 ==> len == floor_log2(n as nat) + 1,
{
    let mut rest: u128 = n;
    let mut len: u32 = 0;
    proof {
        lemma_floor_log2_u128(n);
    }
    while rest > 0
        invariant
            len <= 128,
            rest == 0 ==> (n == 0 ==> len == 0) && (n > 0 ==> len == floor_log2(n as nat) + 1),
            rest > 0 ==> n > 0 && floor_log2(n as nat) == floor_log2(rest as nat) + len,
            rest > 0 ==> len + floor_log2(rest as nat) < 128,
        decreases rest,
    {
        rest = rest / 2;
        len = len + 1;
    }
    len
}

} // verus!

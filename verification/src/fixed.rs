//! Fixed-point arithmetic kernel.
//!
//! A scalar is an `i64` counting `SCALE` units per 1.0.  The two rounding
//! primitives of the whole crate live here: truncating division (`tdiv`)
//! and the floor square root (`sqrt_floor`), each with a verified
//! executable counterpart.

use vstd::prelude::*;
use vstd::arithmetic::div_mod::{
    lemma_div_pos_is_pos, lemma_div_is_ordered, lemma_div_multiples_vanish,
    lemma_div_nonincreasing,
};

verus! {

/// Number of fixed-point units in 1.0.
pub const SCALE: i64 = 1_000_000;

/// Truncating (round-toward-zero) division; all callers keep `b > 0`.
pub open spec fn tdiv(a: int, b: int) -> int {
    if a >= 0 {
        a / b
    } else {
        -((-a) / b)
    }
}

/// Floor of the square root of `n` (0 for negative arguments).
pub open spec fn sqrt_floor(n: int) -> int
    decreases n,
{
    if n <= 0 {
        0
    } else {
        let p = sqrt_floor(n - 1);
        if (p + 1) * (p + 1) <= n {
            p + 1
        } else {
            p
        }
    }
}

pub proof fn lemma_sqrt_floor_props(n: int)
    requires
        n >= 0,
    ensures
        0 <= sqrt_floor(n),
        sqrt_floor(n) * sqrt_floor(n) <= n,
        n < (sqrt_floor(n) + 1) * (sqrt_floor(n) + 1),
    decreases n,
{
    if n > 0 {
        lemma_sqrt_floor_props(n - 1);
        let p = sqrt_floor(n - 1);
        if (p + 1) * (p + 1) <= n {
            assert((p + 1) * (p + 1) < (p + 2) * (p + 2)) by (nonlinear_arith)
                requires
                    p >= 0,
            ;
        }
    }
}

/// The floor square root is the unique `r >= 0` with `r^2 <= n < (r+1)^2`.
pub proof fn lemma_sqrt_floor_unique(n: int, r: int)
    requires
        n >= 0,
        r >= 0,
        r * r <= n,
        n < (r + 1) * (r + 1),
    ensures
        r == sqrt_floor(n),
{
    lemma_sqrt_floor_props(n);
    let s = sqrt_floor(n);
    if r < s {
        assert((r + 1) * (r + 1) <= s * s) by (nonlinear_arith)
            requires
                0 <= r,
                r < s,
        ;
        assert(false);
    }
    if s < r {
        assert((s + 1) * (s + 1) <= r * r) by (nonlinear_arith)
            requires
                0 <= s,
                s < r,
        ;
        assert(false);
    }
}

/// `n <= b^2` caps the floor square root at `b`.
pub proof fn lemma_sqrt_floor_le(n: int, b: int)
    requires
        0 <= n,
        0 <= b,
        n <= b * b,
    ensures
        sqrt_floor(n) <= b,
{
    lemma_sqrt_floor_props(n);
    let s = sqrt_floor(n);
    if b < s {
        assert(b * b < s * s) by (nonlinear_arith)
            requires
                0 <= b,
                b < s,
        ;
        assert(false);
    }
}

/// `b^2 <= n` keeps the floor square root at least `b`.
pub proof fn lemma_sqrt_floor_ge(n: int, b: int)
    requires
        0 <= b,
        b * b <= n,
    ensures
        b <= sqrt_floor(n),
{
    lemma_sqrt_floor_props(n);
    let s = sqrt_floor(n);
    if s < b {
        assert((s + 1) * (s + 1) <= b * b) by (nonlinear_arith)
            requires
                0 <= s,
                s < b,
        ;
        assert(false);
    }
}

/// Quotient bound: `0 <= a <= c*d` and `d <= b` cap `a / b` at `c`.
pub proof fn lemma_div_bound_nonneg(a: int, b: int, c: int, d: int)
    requires
        1 <= d,
        d <= b,
        0 <= c,
        0 <= a,
        a <= c * d,
    ensures
        0 <= a / b,
        a / b <= c,
{
    lemma_div_pos_is_pos(a, b);
    assert(c * d <= c * b) by (nonlinear_arith)
        requires
            d <= b,
            0 <= c,
    ;
    assert(c * b == b * c) by (nonlinear_arith);
    lemma_div_is_ordered(a, b * c, b);
    lemma_div_multiples_vanish(c, b);
}

/// Quotient lower bound: `c*b <= a` keeps `a / b` at least `c`.
pub proof fn lemma_div_at_least(a: int, b: int, c: int)
    requires
        1 <= b,
        0 <= c,
        c * b <= a,
    ensures
        c <= a / b,
{
    assert(c * b == b * c) by (nonlinear_arith);
    lemma_div_is_ordered(b * c, a, b);
    lemma_div_multiples_vanish(c, b);
}

/// Two-sided truncating-division bound: `|a| <= c*d` and `d <= b`
/// give `|tdiv(a, b)| <= c`.
pub proof fn lemma_tdiv_bound(a: int, b: int, c: int, d: int)
    requires
        1 <= d,
        d <= b,
        0 <= c,
        -(c * d) <= a,
        a <= c * d,
    ensures
        -c <= tdiv(a, b),
        tdiv(a, b) <= c,
{
    if a >= 0 {
        lemma_div_bound_nonneg(a, b, c, d);
    } else {
        lemma_div_bound_nonneg(-a, b, c, d);
    }
}

/// Truncating division is monotone in the numerator.
pub proof fn lemma_tdiv_monotone(a1: int, a2: int, b: int)
    requires
        a1 <= a2,
        1 <= b,
    ensures
        tdiv(a1, b) <= tdiv(a2, b),
{
    if a1 >= 0 {
        lemma_div_is_ordered(a1, a2, b);
    } else if a2 >= 0 {
        lemma_div_pos_is_pos(-a1, b);
        lemma_div_pos_is_pos(a2, b);
    } else {
        lemma_div_is_ordered(-a2, -a1, b);
    }
}

/// Truncating division, computed through unsigned division on magnitudes.
pub fn tdiv_i128(a: i128, b: i128) -> (r: i128)
    requires
        1 <= b,
        a > i128::MIN,
    ensures
        r == tdiv(a as int, b as int),
{
    if a >= 0 {
        let q: u128 = (a as u128) / (b as u128);
        proof {
            lemma_div_nonincreasing(a as int, b as int);
        }
        q as i128
    } else {
        let m: u128 = (-a) as u128;
        let q: u128 = m / (b as u128);
        proof {
            lemma_div_nonincreasing(m as int, b as int);
            lemma_div_pos_is_pos(m as int, b as int);
        }
        -(q as i128)
    }
}

/// Floor square root by bisection over the 64-bit root range.
pub fn isqrt_u128(n: u128) -> (r: u128)
    ensures
        r == sqrt_floor(n as int),
        r * r <= n,
{
    let mut lo: u128 = 0;
    let mut hi: u128 = 0x1_0000_0000_0000_0000;
    proof {
        assert((0x1_0000_0000_0000_0000 as int) * (0x1_0000_0000_0000_0000 as int)
            > u128::MAX as int) by (nonlinear_arith);
    }
    while lo + 1 < hi
        invariant
            lo < hi,
            hi <= 0x1_0000_0000_0000_0000,
            (lo as int) * (lo as int) <= n as int,
            (n as int) < (hi as int) * (hi as int),
        decreases hi - lo,
    {
        let mid: u128 = lo + (hi - lo) / 2;
        proof {
            assert((mid as int) * (mid as int)
                <= (0xffff_ffff_ffff_ffff as int) * (0xffff_ffff_ffff_ffff as int))
                by (nonlinear_arith)
                requires
                    0 <= mid,
                    mid <= 0xffff_ffff_ffff_ffff,
            ;
        }
        if mid * mid <= n {
            lo = mid;
        } else {
            hi = mid;
        }
    }
    proof {
        lemma_sqrt_floor_unique(n as int, lo as int);
    }
    lo
}

/// Fixed-point power spec: `pow_fp(b, e)` is `b/SCALE` raised to `e`,
/// truncated after every multiplication, represented in SCALE units.
pub open spec fn pow_fp(base: int, exp: nat) -> int
    decreases exp,
{
    if exp == 0 {
        SCALE as int
    } else {
        tdiv(base * pow_fp(base, (exp - 1) as nat), SCALE as int)
    }
}

/// Fixed-point power of a ratio in [0, 1]; stays in [0, 1].
pub fn pow_fixed(base: i64, exp: u32) -> (r: i64)
    requires
        0 <= base,
        base <= SCALE,
    ensures
        r == pow_fp(base as int, exp as nat),
        0 <= r,
        r <= SCALE,
{
    let mut acc: i64 = SCALE;
    let mut i: u32 = 0;
    while i < exp
        invariant
            0 <= base <= SCALE,
            0 <= acc <= SCALE,
            i <= exp,
            acc == pow_fp(base as int, i as nat),
        decreases exp - i,
    {
        proof {
            assert(0 <= (base as int) * (acc as int)
                && (base as int) * (acc as int) <= 1_000_000_000_000) by (nonlinear_arith)
                requires
                    0 <= base <= 1_000_000,
                    0 <= acc <= 1_000_000,
            ;
        }
        let prod: i128 = (base as i128) * (acc as i128);
        let q: i128 = tdiv_i128(prod, SCALE as i128);
        proof {
            lemma_div_bound_nonneg(prod as int, SCALE as int, SCALE as int, SCALE as int);
        }
        acc = q as i64;
        i = i + 1;
    }
    acc
}

} // verus!

//! Fixed-point arithmetic: the scale, integer square roots and division
//! that rounds toward zero.

use vstd::prelude::*;

verus! {

/// Number of raw steps in one length unit: a raw value `v` stands for the
/// real number `v / UNIT`.
pub const UNIT: i64 = 1_000_000;

/// Largest magnitude a stored coordinate or rest length may have, in raw
/// steps (a million length units).
pub const COORD_MAX: i64 = 1_000_000_000_000;

/// Whether `v` is a coordinate the graph may store.
pub open spec fn in_range(v: int) -> bool {
    -COORD_MAX <= v <= COORD_MAX
}

/// Quotient of `a` by a positive `b`, rounded toward zero.
pub open spec fn trunc_div(a: int, b: int) -> int
    recommends
        b > 0,
{
    if a >= 0 {
        a / b
    } else {
        -((-a) / b)
    }
}

/// `r` is the integer square root of `n`: the largest integer whose square
/// does not exceed `n`.
pub open spec fn is_sqrt_of(r: int, n: int) -> bool {
    0 <= r && r * r <= n < (r + 1) * (r + 1)
}

/// The integer square root of `n`, for `n >= 0`.
pub open spec fn isqrt(n: int) -> int {
    choose|r: int| is_sqrt_of(r, n)
}

/// Every non-negative integer has an integer square root.
pub proof fn lemma_sqrt_exists(n: int)
    requires
        n >= 0,
    ensures
        exists|r: int| is_sqrt_of(r, n),
    decreases n,
{
    if n == 0 {
        assert(is_sqrt_of(0, 0));
    } else {
        let m = n - 1;
        lemma_sqrt_exists(m);
        let r = choose|r: int| is_sqrt_of(r, m);
        if (r + 1) * (r + 1) <= n {
            assert((r + 2) * (r + 2) > (r + 1) * (r + 1)) by (nonlinear_arith)
                requires
                    r >= 0,
            ;
            assert(is_sqrt_of(r + 1, n));
        } else {
            assert(is_sqrt_of(r, n));
        }
    }
}

/// An integer square root is unique.
pub proof fn lemma_sqrt_unique(r: int, s: int, n: int)
    requires
        is_sqrt_of(r, n),
        is_sqrt_of(s, n),
    ensures
        r == s,
{
    if r < s {
        assert((r + 1) * (r + 1) <= s * s) by (nonlinear_arith)
            requires
                0 <= r,
                r + 1 <= s,
        ;
    } else if s < r {
        assert((s + 1) * (s + 1) <= r * r) by (nonlinear_arith)
            requires
                0 <= s,
                s + 1 <= r,
        ;
    }
}

/// `isqrt(n)` is the integer square root of a non-negative `n`, and the only
/// one.
pub proof fn lemma_isqrt(n: int)
    requires
        n >= 0,
    ensures
        is_sqrt_of(isqrt(n), n),
        forall|r: int| is_sqrt_of(r, n) ==> r == isqrt(n),
{
    lemma_sqrt_exists(n);
    assert forall|r: int| is_sqrt_of(r, n) implies r == isqrt(n) by {
        lemma_sqrt_unique(r, isqrt(n), n);
    }
}

/// The integer square root does not decrease when its argument grows.
pub proof fn lemma_isqrt_monotone(m: int, n: int)
    requires
        0 <= m <= n,
    ensures
        isqrt(m) <= isqrt(n),
{
    lemma_isqrt(m);
    lemma_isqrt(n);
    let a = isqrt(m);
    let b = isqrt(n);
    if b < a {
        assert((b + 1) * (b + 1) <= a * a) by (nonlinear_arith)
            requires
                0 <= b,
                b + 1 <= a,
        ;
    }
}

/// The root of a number that is at least a square is at least the root of
/// the square.
pub proof fn lemma_isqrt_at_least(n: int, m: int)
    requires
        0 <= m,
        m * m <= n,
    ensures
        m <= isqrt(n),
{
    lemma_isqrt(n);
    let r = isqrt(n);
    if r < m {
        assert((r + 1) * (r + 1) <= m * m) by (nonlinear_arith)
            requires
                0 <= r,
                r + 1 <= m,
        ;
    }
}

/// The root of a number below the next square is at most the root of the
/// square.
pub proof fn lemma_isqrt_at_most(n: int, m: int)
    requires
        0 <= m,
        0 <= n < (m + 1) * (m + 1),
    ensures
        isqrt(n) <= m,
{
    lemma_isqrt(n);
    let r = isqrt(n);
    if r > m {
        assert((m + 1) * (m + 1) <= r * r) by (nonlinear_arith)
            requires
                0 <= m,
                m + 1 <= r,
        ;
    }
}

/// A quotient rounded toward zero is no larger in magnitude than the
/// dividend and has its sign.
pub proof fn lemma_trunc_div_bound(a: int, b: int)
    requires
        b > 0,
    ensures
        a >= 0 ==> 0 <= trunc_div(a, b) <= a,
        a <= 0 ==> a <= trunc_div(a, b) <= 0,
{
    if a >= 0 {
        vstd::arithmetic::div_mod::lemma_div_pos_is_pos(a, b);
        vstd::arithmetic::div_mod::lemma_div_nonincreasing(a, b);
    } else {
        vstd::arithmetic::div_mod::lemma_div_pos_is_pos(-a, b);
        vstd::arithmetic::div_mod::lemma_div_nonincreasing(-a, b);
    }
}

/// Integer square root by bisection.
pub fn sqrt_floor(n: u128) -> (r: u64)
    requires
        n < 0x4000_0000_0000_0000_0000_0000_0000_0000,
    ensures
        r == isqrt(n as int),
        is_sqrt_of(r as int, n as int),
{
    let mut lo: u128 = 0;
    let mut hi: u128 = if n < 0x1_0000_0000 {
        0x1_0000
    } else if n < 0x1_0000_0000_0000_0000 {
        0x1_0000_0000
    } else if n < 0x1_0000_0000_0000_0000_0000_0000 {
        0x1_0000_0000_0000
    } else {
        0x8000_0000_0000_0000
    };
    assert(hi * hi > n) by (nonlinear_arith)
        requires
            hi == 0x1_0000 && n < 0x1_0000_0000 || hi == 0x1_0000_0000 && n
                < 0x1_0000_0000_0000_0000 || hi == 0x1_0000_0000_0000 && n
                < 0x1_0000_0000_0000_0000_0000_0000 || hi == 0x8000_0000_0000_0000 && n
                < 0x4000_0000_0000_0000_0000_0000_0000_0000,
    ;
    while hi - lo > 1
        invariant
            lo < hi <= 0x8000_0000_0000_0000,
            lo * lo <= n < hi * hi,
        decreases hi - lo,
    {
        let mid: u128 = lo + (hi - lo) / 2;
        assert(mid * mid < 0x4000_0000_0000_0000_0000_0000_0000_0000) by (nonlinear_arith)
            requires
                0 <= mid < 0x8000_0000_0000_0000,
        ;
        if mid * mid <= n {
            lo = mid;
        } else {
            hi = mid;
        }
    }
    proof {
        assert(hi == lo + 1);
        assert(is_sqrt_of(lo as int, n as int));
        lemma_isqrt(n as int);
    }
    lo as u64
}

/// Division that rounds toward zero.
pub fn div_toward_zero(a: i128, b: i128) -> (q: i128)
    requires
        b > 0,
    ensures
        q == trunc_div(a as int, b as int),
{
    a / b
}

} // verus!

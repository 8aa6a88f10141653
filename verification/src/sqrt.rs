//! Integer square roots, rounded down and rounded up.

use vstd::prelude::*;

verus! {

/// `r` is the square root of `n` rounded down: the largest natural number
/// whose square does not exceed `n`.
pub open spec fn is_floor_sqrt(n: nat, r: nat) -> bool {
    r * r <= n && n < (r + 1) * (r + 1)
}

/// `r` is the square root of `n` rounded up: the smallest natural number
/// whose square reaches `n`.
pub open spec fn is_ceil_sqrt(n: nat, r: nat) -> bool {
    r * r >= n && (r == 0 || (r - 1) * (r - 1) < n)
}

/// The square root of `n`, rounded up to the next natural number.
pub open spec fn ceil_sqrt(n: nat) -> nat {
    choose|r: nat| is_ceil_sqrt(n, r)
}

/// Squaring is monotone on the natural numbers.
pub proof fn lemma_square_monotone(a: nat, b: nat)
    requires
        a <= b,
    ensures
        a * a <= b * b,
{
    assert(a * a <= b * b) by (nonlinear_arith)
        requires
            a <= b,
    ;
}

/// A natural number whose square is no larger is no larger.
pub proof fn lemma_square_order(a: nat, b: nat)
    requires
        a * a <= b * b,
    ensures
        a <= b,
{
    if b < a {
        assert(b * b < a * a) by (nonlinear_arith)
            requires
                b < a,
        ;
    }
}

/// At most one number is the rounded-up square root of `n`, and it is
/// `ceil_sqrt(n)`.
pub proof fn lemma_ceil_sqrt_unique(n: nat, r: nat)
    requires
        is_ceil_sqrt(n, r),
    ensures
        ceil_sqrt(n) == r,
{
    let c = ceil_sqrt(n);
    assert(is_ceil_sqrt(n, c));
    if c < r {
        lemma_square_monotone(c, (r - 1) as nat);
    } else if r < c {
        lemma_square_monotone(r, (c - 1) as nat);
    }
}

/// Every natural number has a rounded-up square root.
pub proof fn lemma_ceil_sqrt_exists(n: nat)
    ensures
        is_ceil_sqrt(n, ceil_sqrt(n)),
    decreases n,
{
    if n == 0 {
        assert(is_ceil_sqrt(0, 0));
    } else {
        lemma_ceil_sqrt_exists((n - 1) as nat);
        let p = ceil_sqrt((n - 1) as nat);
        if p * p >= n {
            assert(is_ceil_sqrt(n, p));
        } else {
            assert(p * p == n - 1);
            assert((p + 1) * (p + 1) >= n) by (nonlinear_arith)
                requires
                    p * p == n - 1,
            ;
            assert(is_ceil_sqrt(n, p + 1));
        }
    }
}

/// A natural number whose square reaches `n` is at least `ceil_sqrt(n)`.
pub proof fn lemma_ceil_sqrt_least(n: nat, c: nat)
    requires
        c * c >= n,
    ensures
        ceil_sqrt(n) <= c,
{
    lemma_ceil_sqrt_exists(n);
    let r = ceil_sqrt(n);
    if c < r {
        lemma_square_monotone(c, (r - 1) as nat);
    }
}

/// The square root of `n`, rounded down.
pub fn floor_sqrt(n: u128) -> (r: u64)
    ensures
        is_floor_sqrt(n as nat, r as nat),
{
    let mut lo: u128 = 0;
    let mut hi: u128 = 0x1_0000_0000_0000_0000;
    assert(n < hi * hi) by (nonlinear_arith)
        requires
            hi == 0x1_0000_0000_0000_0000,
            n <= u128::MAX,
    ;
    while hi - lo > 1
        invariant
            lo < hi <= 0x1_0000_0000_0000_0000,
            lo * lo <= n < hi * hi,
        decreases hi - lo,
    {
        let mid: u128 = lo + (hi - lo) / 2;
        assert(mid * mid <= u128::MAX) by (nonlinear_arith)
            requires
                mid < 0x1_0000_0000_0000_0000,
        ;
        if mid * mid <= n {
            lo = mid;
        } else {
            hi = mid;
        }
    }
    lo as u64
}

/// The square root of `n`, rounded up.
pub fn ceil_sqrt_of(n: u128) -> (r: u128)
    ensures
        r == ceil_sqrt(n as nat),
        r <= 0x1_0000_0000_0000_0000,
{
    let f: u64 = floor_sqrt(n);
    let wide: u128 = f as u128;
    assert(wide * wide <= n);
    let r: u128 = if wide * wide == n {
        wide
    } else {
        wide + 1
    };
    proof {
        if wide * wide == n {
            if wide > 0 {
                assert((wide - 1) * (wide - 1) < wide * wide) by (nonlinear_arith)
                    requires
                        wide > 0,
                ;
            }
        }
        assert(is_ceil_sqrt(n as nat, r as nat));
        lemma_ceil_sqrt_unique(n as nat, r as nat);
    }
    r
}

} // verus!

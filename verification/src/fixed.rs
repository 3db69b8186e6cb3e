//! The fixed-point scalar grid and its arithmetic.
//!
//! A scalar is an `i64` counting `1 / SCALE` of a canvas unit. Values are
//! kept within `COORD_LIMIT` so that every intermediate product of the
//! geometry fits in an `i128`. Division rounds toward zero, written by the
//! spec function `tdiv`; square roots round down, written by `sqrt_floor`.

use vstd::prelude::*;

verus! {

/// Number of grid steps per canvas unit.
pub const SCALE: i64 = 1_000_000;

/// Largest magnitude a coordinate may take (2^61 grid steps).
pub const COORD_LIMIT: i64 = 0x2000_0000_0000_0000;

/// A scalar that the geometry may hold.
pub open spec fn in_range(c: int) -> bool {
    -COORD_LIMIT <= c <= COORD_LIMIT
}

/// Quotient of `n` by `d`, rounded toward zero (`d > 0`).
pub open spec fn tdiv(n: int, d: int) -> int {
    if n >= 0 {
        n / d
    } else {
        -((-n) / d)
    }
}

/// Square root of `n`, rounded down: the unique `r >= 0` with
/// `r * r <= n < (r + 1) * (r + 1)`.
pub open spec fn sqrt_floor(n: int) -> int
    decreases n,
{
    if n <= 0 {
        0
    } else {
        let r = sqrt_floor(n - 1);
        if (r + 1) * (r + 1) <= n {
            r + 1
        } else {
            r
        }
    }
}

/// `sqrt_floor` meets its defining inequalities.
pub proof fn lemma_sqrt_floor(n: int)
    requires
        n >= 0,
    ensures
        0 <= sqrt_floor(n),
        sqrt_floor(n) * sqrt_floor(n) <= n,
        n < (sqrt_floor(n) + 1) * (sqrt_floor(n) + 1),
    decreases n,
{
    if n > 0 {
        lemma_sqrt_floor(n - 1);
        let r = sqrt_floor(n - 1);
        if (r + 1) * (r + 1) <= n {
            assert(sqrt_floor(n) == r + 1);
            assert(n < (r + 2) * (r + 2)) by (nonlinear_arith)
                requires 0 <= r && n <= (r + 1) * (r + 1);
        } else {
            assert(sqrt_floor(n) == r);
        }
    }
}

/// The defining inequalities pin `sqrt_floor` down.
pub proof fn lemma_sqrt_floor_unique(n: int, r: int)
    requires
        0 <= r,
        r * r <= n,
        n < (r + 1) * (r + 1),
    ensures
        r == sqrt_floor(n),
{
    lemma_sqrt_floor(n);
    let s = sqrt_floor(n);
    if r < s {
        assert((r + 1) * (r + 1) <= s * s) by (nonlinear_arith)
            requires 0 <= r < s;
    }
    if s < r {
        assert((s + 1) * (s + 1) <= r * r) by (nonlinear_arith)
            requires 0 <= s < r;
    }
}

/// A strict upper bound on the radicand bounds the root.
pub proof fn lemma_sqrt_floor_lt(n: int, a: int)
    requires
        0 <= n,
        0 <= a,
        n < a * a,
    ensures
        sqrt_floor(n) < a,
{
    lemma_sqrt_floor(n);
    let r = sqrt_floor(n);
    if r >= a {
        assert(a * a <= r * r) by (nonlinear_arith)
            requires 0 <= a <= r;
    }
}

/// A square below the radicand bounds the root from below.
pub proof fn lemma_sqrt_floor_ge(n: int, m: int)
    requires
        0 <= m,
        m * m <= n,
    ensures
        m <= sqrt_floor(n),
{
    lemma_sqrt_floor(n);
    let r = sqrt_floor(n);
    if r < m {
        assert((r + 1) * (r + 1) <= m * m) by (nonlinear_arith)
            requires 0 <= r < m;
    }
}

/// Division toward zero never grows the magnitude of the dividend.
pub proof fn lemma_tdiv_bounds(n: int, d: int)
    requires
        d > 0,
    ensures
        n >= 0 ==> 0 <= tdiv(n, d) <= n,
        n < 0 ==> n <= tdiv(n, d) <= 0,
{
    if n >= 0 {
        assert(0 <= n / d <= n) by (nonlinear_arith)
            requires n >= 0 && d > 0;
    } else {
        let m = -n;
        assert(0 <= m / d <= m) by (nonlinear_arith)
            requires m > 0 && d > 0;
    }
}

/// A magnitude bound on the dividend gives one on the quotient.
pub proof fn lemma_tdiv_mag(n: int, d: int, b: int)
    requires
        d > 0,
        0 <= b,
        -(b * d) <= n <= b * d,
    ensures
        -b <= tdiv(n, d) <= b,
{
    if n >= 0 {
        assert(n / d <= b) by (nonlinear_arith)
            requires n >= 0 && d > 0 && n <= b * d;
        lemma_tdiv_bounds(n, d);
    } else {
        let m = -n;
        assert(m / d <= b) by (nonlinear_arith)
            requires m >= 0 && d > 0 && m <= b * d;
        lemma_tdiv_bounds(n, d);
    }
}

/// When `d` divides `n`, division toward zero is exact.
pub proof fn lemma_tdiv_exact(n: int, d: int)
    requires
        d > 0,
        n % d == 0,
    ensures
        tdiv(n, d) * d == n,
{
    if n >= 0 {
        assert((n / d) * d == n) by (nonlinear_arith)
            requires n >= 0 && d > 0 && n % d == 0;
    } else {
        assert((-((-n) / d)) * d == n) by (nonlinear_arith)
            requires n < 0 && d > 0 && n % d == 0;
    }
}

/// A quotient rounded toward zero, on `i128` operands.
pub fn div_toward_zero(n: i128, d: i128) -> (r: i128)
    requires
        d > 0,
        -0x4000_0000_0000_0000_0000_0000_0000_0000 < n,
    ensures
        r == tdiv(n as int, d as int),
{
    proof {
        lemma_tdiv_bounds(n as int, d as int);
    }
    if n >= 0 {
        let q: u128 = (n as u128) / (d as u128);
        q as i128
    } else {
        let m: u128 = (-n) as u128;
        let q: u128 = m / (d as u128);
        -(q as i128)
    }
}

/// `tdiv(a * b, d)` on machine integers, the workhorse of the
/// fixed-point products.
pub fn mul_div(a: i64, b: i64, d: i64) -> (r: i64)
    requires
        d > 0,
        i64::MIN <= tdiv(a * b, d as int) <= i64::MAX,
    ensures
        r == tdiv(a * b, d as int),
{
    proof {
        assert(-0x4000_0000_0000_0000_0000_0000_0000_0000 < (a as int) * (b as int)
            <= 0x4000_0000_0000_0000_0000_0000_0000_0000) by (nonlinear_arith);
    }
    let p: i128 = (a as i128) * (b as i128);
    let q: i128 = div_toward_zero(p, d as i128);
    q as i64
}

/// Square root rounded down, on a `u128` operand.
pub fn isqrt(n: u128) -> (r: u64)
    requires
        n < 0x4000_0000_0000_0000_0000_0000_0000_0000,
    ensures
        r == sqrt_floor(n as int),
        r * r <= n < (r + 1) * (r + 1),
{
    let mut lo: u64 = 0;
    let mut hi: u64 = 0x8000_0000_0000_0000;
    proof {
        assert((hi as int) * (hi as int) > n as int) by (nonlinear_arith)
            requires hi as int == 0x8000_0000_0000_0000
                && (n as int) < 0x4000_0000_0000_0000_0000_0000_0000_0000;
    }
    while lo + 1 < hi
        invariant
            lo < hi <= 0x8000_0000_0000_0000,
            (lo as int) * (lo as int) <= n as int,
            (n as int) < (hi as int) * (hi as int),
        decreases hi - lo,
    {
        let mid: u64 = lo + (hi - lo) / 2;
        proof {
            assert((mid as int) * (mid as int) <= 0x4000_0000_0000_0000_0000_0000_0000_0000)
                by (nonlinear_arith)
                requires 0 <= (mid as int) <= 0x8000_0000_0000_0000;
        }
        if (mid as u128) * (mid as u128) <= n {
            lo = mid;
        } else {
            hi = mid;
        }
    }
    proof {
        lemma_sqrt_floor_unique(n as int, lo as int);
    }
    lo
}

} // verus!

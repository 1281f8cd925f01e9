//! Integer arithmetic helpers shared by the geometry and the simulation:
//! floor square roots and truncating division, each with an exact
//! mathematical description.

use vstd::prelude::*;

verus! {

/// The floor of the square root of `n` (0 for negative arguments).
pub open spec fn sqrt_floor(n: int) -> int
    decreases n,
{
    if n <= 0 {
        0
    } else {
        let r = sqrt_floor(n - 1);
        if (r + 1) * (r + 1) <= n {
            r + 1
        } else {
            r
        }
    }
}

/// `sqrt_floor(n)` is the unique nonnegative `r` with `r*r <= n < (r+1)*(r+1)`.
pub proof fn lemma_sqrt_floor_bounds(n: int)
    requires
        n >= 0,
    ensures
        sqrt_floor(n) >= 0,
        sqrt_floor(n) * sqrt_floor(n) <= n,
        n < (sqrt_floor(n) + 1) * (sqrt_floor(n) + 1),
    decreases n,
{
    if n == 0 {
    } else {
        lemma_sqrt_floor_bounds(n - 1);
        let r = sqrt_floor(n - 1);
        if (r + 1) * (r + 1) <= n {
            assert(n < (r + 2) * (r + 2)) by (nonlinear_arith)
                requires
                    r >= 0,
                    n - 1 < (r + 1) * (r + 1),
            ;
        }
    }
}

/// Any `r` satisfying the square-root bracketing equals `sqrt_floor(n)`.
pub proof fn lemma_sqrt_floor_unique(n: int, r: int)
    requires
        n >= 0,
        r >= 0,
        r * r <= n,
        n < (r + 1) * (r + 1),
    ensures
        r == sqrt_floor(n),
{
    lemma_sqrt_floor_bounds(n);
    let s = sqrt_floor(n);
    if r < s {
        assert((r + 1) * (r + 1) <= s * s) by (nonlinear_arith)
            requires
                0 <= r,
                r + 1 <= s,
        ;
    }
    if s < r {
        assert((s + 1) * (s + 1) <= r * r) by (nonlinear_arith)
            requires
                0 <= s,
                s + 1 <= r,
        ;
    }
}

/// Squares respect absolute-value bounds: `|a| <= b` gives `a*a <= b*b`.
pub proof fn lemma_square_bound(a: int, b: int)
    requires
        -b <= a <= b,
    ensures
        0 <= a * a <= b * b,
{
    assert(0 <= a * a <= b * b) by (nonlinear_arith)
        requires
            -b <= a <= b,
    ;
}

/// Floor square root by binary search.
pub fn isqrt(n: u64) -> (r: u64)
    requires
        n < 0x4000_0000_0000_0000,
    ensures
        r == sqrt_floor(n as int),
        r * r <= n,
        n < (r + 1) * (r + 1),
        r < 0x8000_0000,
{
    let mut lo: u64 = 0;
    let mut hi: u64 = 0x8000_0000;
    assert(hi * hi > n);
    while hi - lo > 1
        invariant
            lo < hi <= 0x8000_0000,
            lo * lo <= n,
            n < hi * hi,
        decreases hi - lo,
    {
        let mid = lo + (hi - lo) / 2;
        proof {
            lemma_square_bound(mid as int, 0x8000_0000);
        }
        if mid * mid <= n {
            lo = mid;
        } else {
            hi = mid;
        }
    }
    proof {
        lemma_sqrt_floor_unique(n as int, lo as int);
    }
    lo
}

/// Division that rounds toward zero, as the simulation's fixed-point scaling
/// uses it; defined for positive divisors.
pub open spec fn div_trunc(a: int, b: int) -> int
    recommends
        b > 0,
{
    if a >= 0 {
        a / b
    } else {
        -((-a) / b)
    }
}

/// Executable truncating division on `i64`.
pub fn div_trunc_i64(a: i64, b: i64) -> (r: i64)
    requires
        b > 0,
        a > i64::MIN,
    ensures
        r == div_trunc(a as int, b as int),
{
    if a >= 0 {
        a / b
    } else {
        -((-a) / b)
    }
}

/// Truncating division shrinks magnitudes: `|div_trunc(a, b)| <= |a|`.
pub proof fn lemma_div_trunc_abs(a: int, b: int)
    requires
        b >= 1,
    ensures
        a >= 0 ==> 0 <= div_trunc(a, b) <= a,
        a < 0 ==> a <= div_trunc(a, b) <= 0,
{
    if a >= 0 {
        assert(0 <= a / b <= a) by (nonlinear_arith)
            requires
                a >= 0,
                b >= 1,
        ;
    } else {
        assert(0 <= (-a) / b <= -a) by (nonlinear_arith)
            requires
                -a >= 0,
                b >= 1,
        ;
    }
}

/// Quotient magnitude bound: if `|a| <= b * m` then `|a / b| <= m`.
pub proof fn lemma_div_trunc_bound(a: int, b: int, m: int)
    requires
        b >= 1,
        m >= 0,
        -(b * m) <= a <= b * m,
    ensures
        -m <= div_trunc(a, b) <= m,
{
    vstd::arithmetic::div_mod::lemma_div_multiples_vanish(m, b);
    if a >= 0 {
        vstd::arithmetic::div_mod::lemma_div_is_ordered(a, b * m, b);
        lemma_div_trunc_abs(a, b);
    } else {
        vstd::arithmetic::div_mod::lemma_div_is_ordered(-a, b * m, b);
        lemma_div_trunc_abs(a, b);
    }
}

/// A square below `r*r` bounds the base strictly by `r` in absolute value.
pub proof fn lemma_abs_lt_of_sq(a: int, r: int)
    requires
        a * a < r * r,
        r >= 0,
    ensures
        -r < a < r,
{
    assert(-r < a < r) by (nonlinear_arith)
        requires
            a * a < r * r,
            r >= 0,
    ;
}

/// Clamp a value into `[-bound, bound]`.
pub open spec fn clamp_abs(a: int, bound: int) -> int {
    if a > bound {
        bound
    } else if a < -bound {
        -bound
    } else {
        a
    }
}

/// Executable clamp into `[-bound, bound]`.
pub fn clamp_abs_i64(a: i64, bound: i64) -> (r: i64)
    requires
        bound >= 0,
    ensures
        r == clamp_abs(a as int, bound as int),
{
    if a > bound {
        bound
    } else if a < -bound {
        -bound
    } else {
        a
    }
}

} // verus!

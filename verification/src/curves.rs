//! Space-filling-curve strategies: a verified Z-order (Morton) interleave and
//! a Hilbert mapping that delegates the curve transform to the `fast_hilbert`
//! crate. A strategy turns a 2-D position into a 1-D curve order; the
//! curve-sorted index sorts and range-queries by that order.

use vstd::prelude::*;
use vstd::arithmetic::power2::{
    lemma2_to64, lemma2_to64_rest, lemma_pow2_adds, lemma_pow2_pos, lemma_pow2_strictly_increases,
    pow2,
};
use vstd::arithmetic::div_mod::{
    lemma_div_denominator, lemma_fundamental_div_mod, lemma_fundamental_div_mod_converse,
};
use vstd::bits::{lemma_u64_shl_is_mul, lemma_u64_shr_is_div};
use crate::numeric::div_trunc;
use crate::v2::TreeValue;

verus! {

/// One curve cell spans this many milli-units (the 20-length-unit scale the
/// strategies quantize with before the curve math).
pub const FILL_SCALE: i64 = 20_000;

/// The Morton interleave of the low `n` bits of `x` and `y`: bit `j` of `x`
/// lands at position `2j`, bit `j` of `y` at position `2j + 1`.
pub open spec fn z_interleave(x: int, y: int, n: nat) -> int
    decreases n,
{
    if n == 0 {
        0
    } else {
        4 * z_interleave(x / 2, y / 2, (n - 1) as nat) + x % 2 + 2 * (y % 2)
    }
}

/// The even-position bits of a Morton code, read back as an integer.
pub open spec fn z_pair_x(m: int, n: nat) -> int
    decreases n,
{
    if n == 0 {
        0
    } else {
        2 * z_pair_x(m / 4, (n - 1) as nat) + m % 2
    }
}

/// The odd-position bits of a Morton code, read back as an integer.
pub open spec fn z_pair_y(m: int, n: nat) -> int
    decreases n,
{
    if n == 0 {
        0
    } else {
        2 * z_pair_y(m / 4, (n - 1) as nat) + (m / 2) % 2
    }
}

/// Interleaving `n` bits stays below `4^n`.
pub proof fn lemma_z_interleave_bound(x: int, y: int, n: nat)
    requires
        x >= 0,
        y >= 0,
    ensures
        0 <= z_interleave(x, y, n) < pow2(2 * n),
    decreases n,
{
    if n == 0 {
        lemma2_to64();
    } else {
        lemma_z_interleave_bound(x / 2, y / 2, (n - 1) as nat);
        lemma_pow2_adds(2, 2 * (n - 1) as nat);
        lemma2_to64();
        assert(x % 2 + 2 * (y % 2) <= 3);
    }
}

/// Extending the interleave by one bit level adds the next bits of `x` and
/// `y` at positions `2n` and `2n + 1`.
#[verifier::rlimit(60)]
#[verifier::spinoff_prover]
pub proof fn lemma_z_interleave_step(x: int, y: int, n: nat)
    requires
        x >= 0,
        y >= 0,
    ensures
        z_interleave(x, y, n + 1) == z_interleave(x, y, n) + (x / pow2(n) as int % 2) * pow2(
            2 * n,
        ) + 2 * ((y / pow2(n) as int % 2) * pow2(2 * n)),
    decreases n,
{
    lemma_pow2_pos(n);
    if n == 0 {
        lemma2_to64();
        assert(z_interleave(x / 2, y / 2, 0) == 0);
        assert(z_interleave(x, y, 0) == 0);
        assert(x / 1 == x && y / 1 == y);
        assert(z_interleave(x, y, 1) == x % 2 + 2 * (y % 2));
        let bx0 = x / pow2(0) as int % 2;
        let by0 = y / pow2(0) as int % 2;
        assert(bx0 == x % 2 && by0 == y % 2);
        assert(bx0 * pow2(0) == bx0 && by0 * pow2(0) == by0) by (nonlinear_arith)
            requires
                pow2(0) == 1,
        ;
    } else {
        lemma_z_interleave_step(x / 2, y / 2, (n - 1) as nat);
        lemma_pow2_pos((n - 1) as nat);
        lemma_div_denominator(x, 2, pow2((n - 1) as nat) as int);
        lemma_div_denominator(y, 2, pow2((n - 1) as nat) as int);
        assert(pow2(n) == 2 * pow2((n - 1) as nat)) by {
            lemma_pow2_adds(1, (n - 1) as nat);
            lemma2_to64();
        }
        assert(pow2(2 * n) == 4 * pow2(2 * (n - 1) as nat)) by {
            lemma_pow2_adds(2, 2 * (n - 1) as nat);
            lemma2_to64();
        }
        let bx = (x / 2) / pow2((n - 1) as nat) as int % 2;
        let by = (y / 2) / pow2((n - 1) as nat) as int % 2;
        let p = pow2(2 * (n - 1) as nat) as int;
        assert(z_interleave(x, y, n + 1) == 4 * z_interleave(x / 2, y / 2, n) + x % 2 + 2 * (y
            % 2));
        assert(z_interleave(x / 2, y / 2, n) == z_interleave(x / 2, y / 2, (n - 1) as nat) + bx
            * p + 2 * (by * p));
        assert(4 * (z_interleave(x / 2, y / 2, (n - 1) as nat) + bx * p + 2 * (by * p)) == 4
            * z_interleave(x / 2, y / 2, (n - 1) as nat) + bx * (4 * p) + 2 * (by * (4 * p)))
            by (nonlinear_arith);
        assert(z_interleave(x, y, n + 1) == 4 * z_interleave(x / 2, y / 2, (n - 1) as nat) + x
            % 2 + 2 * (y % 2) + bx * (4 * p) + 2 * (by * (4 * p)));
        assert(z_interleave(x, y, n) == 4 * z_interleave(x / 2, y / 2, (n - 1) as nat) + x % 2
            + 2 * (y % 2));
        assert(bx == x / pow2(n) as int % 2);
        assert(by == y / pow2(n) as int % 2);
        assert(4 * p == pow2(2 * n));
        assert(z_interleave(x, y, n + 1) == z_interleave(x, y, n) + bx * (4 * p) + 2 * (by * (4
            * p)));
        assert(bx * (4 * p) == (x / pow2(n) as int % 2) * pow2(2 * n)) by (nonlinear_arith)
            requires
                bx == x / pow2(n) as int % 2,
                4 * p == pow2(2 * n),
        ;
        assert(by * (4 * p) == (y / pow2(n) as int % 2) * pow2(2 * n)) by (nonlinear_arith)
            requires
                by == y / pow2(n) as int % 2,
                4 * p == pow2(2 * n),
        ;
    }
}

/// Reading back the even and odd bit positions of an interleave recovers the
/// original pair.
pub proof fn lemma_z_round_trip(x: int, y: int, n: nat)
    requires
        0 <= x < pow2(n),
        0 <= y < pow2(n),
    ensures
        z_pair_x(z_interleave(x, y, n), n) == x,
        z_pair_y(z_interleave(x, y, n), n) == y,
    decreases n,
{
    if n == 0 {
        lemma2_to64();
    } else {
        let m = z_interleave(x, y, n);
        let m1 = z_interleave(x / 2, y / 2, (n - 1) as nat);
        assert(pow2(n) == 2 * pow2((n - 1) as nat)) by {
            lemma_pow2_adds(1, (n - 1) as nat);
            lemma2_to64();
        }
        lemma_fundamental_div_mod(x, 2);
        lemma_fundamental_div_mod(y, 2);
        lemma_z_round_trip(x / 2, y / 2, (n - 1) as nat);
        lemma_z_interleave_bound(x / 2, y / 2, (n - 1) as nat);
        assert(m == 4 * m1 + (x % 2 + 2 * (y % 2)));
        lemma_fundamental_div_mod_converse(m, 4, m1, x % 2 + 2 * (y % 2));
        assert(m / 4 == m1 && m % 4 == x % 2 + 2 * (y % 2));
        assert(m == 2 * (2 * m1 + y % 2) + x % 2);
        lemma_fundamental_div_mod_converse(m, 2, 2 * m1 + y % 2, x % 2);
        assert(m % 2 == x % 2 && m / 2 == 2 * m1 + y % 2);
        lemma_fundamental_div_mod_converse(m / 2, 2, m1, y % 2);
        assert((m / 2) % 2 == y % 2);
    }
}

/// Morton codes respect the componentwise order of their inputs, strictly for
/// distinct pairs within the `n`-bit domain.
pub proof fn lemma_z_interleave_mono(x: int, y: int, x2: int, y2: int, n: nat)
    requires
        0 <= x <= x2 < pow2(n),
        0 <= y <= y2 < pow2(n),
    ensures
        z_interleave(x, y, n) <= z_interleave(x2, y2, n),
    decreases n,
{
    if n == 0 {
    } else {
        assert(pow2(n) == 2 * pow2((n - 1) as nat)) by {
            lemma_pow2_adds(1, (n - 1) as nat);
            lemma2_to64();
        }
        lemma_fundamental_div_mod(x, 2);
        lemma_fundamental_div_mod(y, 2);
        lemma_fundamental_div_mod(x2, 2);
        lemma_fundamental_div_mod(y2, 2);
        lemma_z_interleave_mono(x / 2, y / 2, x2 / 2, y2 / 2, (n - 1) as nat);
        let za = z_interleave(x / 2, y / 2, (n - 1) as nat);
        let zb = z_interleave(x2 / 2, y2 / 2, (n - 1) as nat);
        if x / 2 == x2 / 2 && y / 2 == y2 / 2 {
            assert(x % 2 <= x2 % 2);
            assert(y % 2 <= y2 % 2);
        } else {
            lemma_z_interleave_strict(x / 2, y / 2, x2 / 2, y2 / 2, (n - 1) as nat);
            assert(x % 2 + 2 * (y % 2) <= 3);
            assert(x2 % 2 + 2 * (y2 % 2) >= 0);
        }
    }
}

/// Strict form of the monotonicity of the interleave.
pub proof fn lemma_z_interleave_strict(x: int, y: int, x2: int, y2: int, n: nat)
    requires
        0 <= x <= x2 < pow2(n),
        0 <= y <= y2 < pow2(n),
        x != x2 || y != y2,
    ensures
        z_interleave(x, y, n) < z_interleave(x2, y2, n),
    decreases n,
{
    if n == 0 {
        lemma2_to64();
        assert(false);
    } else {
        assert(pow2(n) == 2 * pow2((n - 1) as nat)) by {
            lemma_pow2_adds(1, (n - 1) as nat);
            lemma2_to64();
        }
        lemma_fundamental_div_mod(x, 2);
        lemma_fundamental_div_mod(y, 2);
        lemma_fundamental_div_mod(x2, 2);
        lemma_fundamental_div_mod(y2, 2);
        let za = z_interleave(x / 2, y / 2, (n - 1) as nat);
        let zb = z_interleave(x2 / 2, y2 / 2, (n - 1) as nat);
        if x / 2 == x2 / 2 && y / 2 == y2 / 2 {
            assert(x % 2 <= x2 % 2);
            assert(y % 2 <= y2 % 2);
            assert(x % 2 + 2 * (y % 2) < x2 % 2 + 2 * (y2 % 2));
        } else {
            lemma_z_interleave_strict(x / 2, y / 2, x2 / 2, y2 / 2, (n - 1) as nat);
            assert(x % 2 + 2 * (y % 2) <= 3);
            assert(x2 % 2 + 2 * (y2 % 2) >= 0);
        }
    }
}

/// Interleave the low `order` bits of `x` and `y` into one Morton code,
/// x-bits at even positions, y-bits at odd positions.
pub fn z_order(x: u64, y: u64, order: u64) -> (z: u64)
    requires
        order <= 32,
    ensures
        z == z_interleave(x as int, y as int, order as nat),
{
    let mut z: u64 = 0;
    let mut i: u64 = 0;
    while i < order
        invariant
            i <= order <= 32,
            z == z_interleave(x as int, y as int, i as nat),
        decreases order - i,
    {
        proof {
            lemma_z_interleave_bound(x as int, y as int, i as nat);
            lemma_z_interleave_step(x as int, y as int, i as nat);
            lemma_u64_shr_is_div(x, i);
            lemma_u64_shr_is_div(y, i);
            lemma2_to64();
            lemma2_to64_rest();
            if 2 * i < 64 {
                lemma_pow2_strictly_increases(2 * (i as nat), 64);
            }
            lemma_u64_shl_is_mul(1u64, (2 * i) as u64);
            assert((1u64 << (2 * i)) == pow2(2 * (i as nat)));
            assert(z < (1u64 << (2 * i)));
            assert(((x >> i) & 1) == (x >> i) % 2) by (bit_vector);
            assert(((y >> i) & 1) == (y >> i) % 2) by (bit_vector);
            assert((z | (((x & (1u64 << i)) << i) | ((y & (1u64 << i)) << (i + 1)))) == z + ((x
                >> i) & 1) * (1u64 << (2 * i)) + 2 * (((y >> i) & 1) * (1u64 << (2 * i))))
                by (bit_vector)
                requires
                    i < 32,
                    z < (1u64 << (2 * i)),
            ;
            assert(((x >> i) & 1) <= 1 && ((y >> i) & 1) <= 1) by (bit_vector);
        }
        z = z | (((x & (1u64 << i)) << i) | ((y & (1u64 << i)) << (i + 1)));
        i = i + 1;
    }
    z
}

/// Reading back one more bit level picks up bits `2n` and `2n + 1` of the
/// Morton code.
pub proof fn lemma_z_pair_step(m: int, n: nat)
    requires
        m >= 0,
    ensures
        z_pair_x(m, n + 1) == z_pair_x(m, n) + (m / pow2(2 * n) as int % 2) * pow2(n),
        z_pair_y(m, n + 1) == z_pair_y(m, n) + (m / pow2(2 * n + 1) as int % 2) * pow2(n),
    decreases n,
{
    lemma_pow2_pos(2 * n);
    lemma_pow2_pos(2 * n + 1);
    if n == 0 {
        lemma2_to64();
        assert(z_pair_x(m / 4, 0) == 0 && z_pair_y(m / 4, 0) == 0);
        assert(z_pair_x(m, 0) == 0 && z_pair_y(m, 0) == 0);
        assert(m / 1 == m);
        assert(z_pair_x(m, 1) == m % 2);
        assert(z_pair_y(m, 1) == (m / 2) % 2);
    } else {
        lemma_z_pair_step(m / 4, (n - 1) as nat);
        lemma_pow2_pos((2 * n - 2) as nat);
        lemma_pow2_pos((2 * n - 1) as nat);
        lemma_div_denominator(m, 4, pow2((2 * n - 2) as nat) as int);
        lemma_div_denominator(m, 4, pow2((2 * n - 1) as nat) as int);
        assert(pow2(2 * n) == 4 * pow2((2 * n - 2) as nat)) by {
            lemma_pow2_adds(2, (2 * n - 2) as nat);
            lemma2_to64();
        }
        assert(pow2(2 * n + 1) == 4 * pow2((2 * n - 1) as nat)) by {
            lemma_pow2_adds(2, (2 * n - 1) as nat);
            lemma2_to64();
        }
        assert(pow2(n) == 2 * pow2((n - 1) as nat)) by {
            lemma_pow2_adds(1, (n - 1) as nat);
            lemma2_to64();
        }
        let bx = (m / 4) / pow2((2 * n - 2) as nat) as int % 2;
        let by = (m / 4) / pow2((2 * n - 1) as nat) as int % 2;
        let p = pow2((n - 1) as nat) as int;
        assert(z_pair_x(m, n + 1) == 2 * z_pair_x(m / 4, n) + m % 2);
        assert(z_pair_y(m, n + 1) == 2 * z_pair_y(m / 4, n) + (m / 2) % 2);
        assert(z_pair_x(m / 4, n) == z_pair_x(m / 4, (n - 1) as nat) + bx * p);
        assert(z_pair_y(m / 4, n) == z_pair_y(m / 4, (n - 1) as nat) + by * p);
        assert(2 * (z_pair_x(m / 4, (n - 1) as nat) + bx * p) == 2 * z_pair_x(
            m / 4,
            (n - 1) as nat,
        ) + bx * (2 * p)) by (nonlinear_arith);
        assert(2 * (z_pair_y(m / 4, (n - 1) as nat) + by * p) == 2 * z_pair_y(
            m / 4,
            (n - 1) as nat,
        ) + by * (2 * p)) by (nonlinear_arith);
        assert(bx == m / pow2(2 * n) as int % 2);
        assert(by == m / pow2(2 * n + 1) as int % 2);
        assert(bx * (2 * p) == (m / pow2(2 * n) as int % 2) * pow2(n)) by (nonlinear_arith)
            requires
                bx == m / pow2(2 * n) as int % 2,
                2 * p == pow2(n),
        ;
        assert(by * (2 * p) == (m / pow2(2 * n + 1) as int % 2) * pow2(n)) by (nonlinear_arith)
            requires
                by == m / pow2(2 * n + 1) as int % 2,
                2 * p == pow2(n),
        ;
    }
}

/// The read-back coordinates of an `n`-level Morton code stay below `2^n`.
pub proof fn lemma_z_pair_bound(m: int, n: nat)
    requires
        m >= 0,
    ensures
        0 <= z_pair_x(m, n) < pow2(n),
        0 <= z_pair_y(m, n) < pow2(n),
    decreases n,
{
    if n == 0 {
        lemma2_to64();
    } else {
        lemma_z_pair_bound(m / 4, (n - 1) as nat);
        assert(pow2(n) == 2 * pow2((n - 1) as nat)) by {
            lemma_pow2_adds(1, (n - 1) as nat);
            lemma2_to64();
        }
    }
}

/// Bit levels past the significant range of the code contribute nothing.
pub proof fn lemma_z_pair_ext(m: int, n: nat, k: nat)
    requires
        0 <= m < pow2(2 * n),
    ensures
        z_pair_x(m, n + k) == z_pair_x(m, n),
        z_pair_y(m, n + k) == z_pair_y(m, n),
    decreases k,
{
    if k == 0 {
    } else {
        lemma_z_pair_ext(m, n, (k - 1) as nat);
        let j = (n + k - 1) as nat;
        lemma_z_pair_step(m, j);
        lemma_pow2_pos(2 * j);
        lemma_pow2_pos(2 * j + 1);
        assert(pow2(2 * n) <= pow2(2 * j)) by {
            if 2 * n < 2 * j {
                lemma_pow2_strictly_increases(2 * n, 2 * j);
            }
        }
        assert(pow2(2 * j) < pow2(2 * j + 1)) by {
            lemma_pow2_strictly_increases(2 * j, 2 * j + 1);
        }
        vstd::arithmetic::div_mod::lemma_basic_div(m, pow2(2 * j) as int);
        vstd::arithmetic::div_mod::lemma_basic_div(m, pow2(2 * j + 1) as int);
    }
}

/// One step of the split loop: setting (or skipping) bit `i` of each
/// coordinate matches extending the read-back by one level.
proof fn lemma_split_step(m: u64, x: u64, y: u64, i: u64)
    requires
        i < 32,
        x == z_pair_x(m as int, i as nat),
        y == z_pair_y(m as int, i as nat),
    ensures
        ((m & ((1u64 << i) << i)) != 0) ==> (x | (1u64 << i)) == z_pair_x(
            m as int,
            i as nat + 1,
        ),
        ((m & ((1u64 << i) << i)) == 0) ==> x == z_pair_x(m as int, i as nat + 1),
        ((m & ((1u64 << i) << (i + 1))) != 0) ==> (y | (1u64 << i)) == z_pair_y(
            m as int,
            i as nat + 1,
        ),
        ((m & ((1u64 << i) << (i + 1))) == 0) ==> y == z_pair_y(m as int, i as nat + 1),
{
    let s = (2 * i) as u64;
    let s1 = (2 * i + 1) as u64;
    lemma_z_pair_bound(m as int, i as nat);
    lemma_z_pair_step(m as int, i as nat);
    lemma_u64_shr_is_div(m, s);
    lemma_u64_shr_is_div(m, s1);
    lemma_pow2_strictly_increases(i as nat, 64);
    lemma2_to64();
    lemma2_to64_rest();
    lemma_u64_shl_is_mul(1u64, i);
    assert((1u64 << i) == pow2(i as nat));
    let bx = (m >> s) & 1;
    let by = (m >> s1) & 1;
    assert(bx == (m >> s) % 2) by (bit_vector)
        requires
            bx == (m >> s) & 1,
    ;
    assert(by == (m >> s1) % 2) by (bit_vector)
        requires
            by == (m >> s1) & 1,
    ;
    assert(m >> s == m as nat / pow2(s as nat));
    assert(m >> s1 == m as nat / pow2(s1 as nat));
    assert(pow2(s as nat) == pow2(2 * (i as nat)));
    assert(pow2(s1 as nat) == pow2(2 * (i as nat) + 1));
    assert(bx == m as int / pow2(2 * (i as nat)) as int % 2);
    assert(by == m as int / pow2(2 * (i as nat) + 1) as int % 2);
    assert(((m & ((1u64 << i) << i)) != 0) == (bx == 1)) by (bit_vector)
        requires
            i < 32,
            s == 2 * i,
            bx == (m >> s) & 1,
    ;
    assert(((m & ((1u64 << i) << (i + 1))) != 0) == (by == 1)) by (bit_vector)
        requires
            i < 32,
            s1 == 2 * i + 1,
            by == (m >> s1) & 1,
    ;
    assert(x < (1u64 << i) ==> (x | (1u64 << i)) == x + (1u64 << i)) by (bit_vector);
    assert(y < (1u64 << i) ==> (y | (1u64 << i)) == y + (1u64 << i)) by (bit_vector);
    assert(bx <= 1 && by <= 1);
    assert(z_pair_x(m as int, i as nat + 1) == z_pair_x(m as int, i as nat) + bx * pow2(
        i as nat,
    ));
    assert(z_pair_y(m as int, i as nat + 1) == z_pair_y(m as int, i as nat) + by * pow2(
        i as nat,
    ));
    assert((m & ((1u64 << i) << i)) == 0 ==> bx == 0);
    assert(bx == 0 ==> bx * pow2(i as nat) == 0) by (nonlinear_arith);
    assert(bx == 0 ==> x == z_pair_x(m as int, i as nat + 1));
    assert((m & ((1u64 << i) << (i + 1))) == 0 ==> by == 0);
    assert(by == 0 ==> by * pow2(i as nat) == 0) by (nonlinear_arith);
    assert(by == 0 ==> y == z_pair_y(m as int, i as nat + 1));
}

/// Split a Morton code back into its two interleaved coordinates,
/// even-position bits first.
pub fn z_order_split(morton: u64) -> (p: (u64, u64))
    ensures
        p.0 == z_pair_x(morton as int, 32),
        p.1 == z_pair_y(morton as int, 32),
{
    let order: u64 = 32;
    let mut x: u64 = 0;
    let mut y: u64 = 0;
    let mut i: u64 = 0;
    while i < order
        invariant
            i <= order == 32,
            x == z_pair_x(morton as int, i as nat),
            y == z_pair_y(morton as int, i as nat),
        decreases order - i,
    {
        proof {
            lemma_split_step(morton, x, y, i);
        }
        let mask: u64 = 1u64 << i;
        if morton & (mask << i) != 0 {
            x = x | mask;
        }
        if morton & (mask << (i + 1)) != 0 {
            y = y | mask;
        }
        i = i + 1;
    }
    (x, y)
}

/// The curve cell a coordinate falls in: divide by the fill scale rounding
/// toward zero, clamp below at 0 and above at `cap` (matching the saturating
/// float-to-unsigned cast of the per-axis bit budget).
pub open spec fn scaled_cell(x: int, cap: int) -> int {
    let q = div_trunc(x, FILL_SCALE as int);
    if q < 0 {
        0
    } else if q > cap {
        cap
    } else {
        q
    }
}

/// Executable form of `scaled_cell`.
pub fn scaled_cell_i64(x: i64, cap: i64) -> (r: i64)
    requires
        cap >= 0,
        x > i64::MIN,
    ensures
        r == scaled_cell(x as int, cap as int),
        0 <= r <= cap,
{
    let q = crate::numeric::div_trunc_i64(x, FILL_SCALE);
    if q < 0 {
        0
    } else if q > cap {
        cap
    } else {
        q
    }
}

/// Truncating division by a positive divisor keeps order.
pub proof fn lemma_div_trunc_ordered(a: int, b: int, d: int)
    requires
        a <= b,
        d >= 1,
    ensures
        div_trunc(a, d) <= div_trunc(b, d),
{
    crate::numeric::lemma_div_trunc_abs(a, d);
    crate::numeric::lemma_div_trunc_abs(b, d);
    if a >= 0 {
        vstd::arithmetic::div_mod::lemma_div_is_ordered(a, b, d);
    } else if b < 0 {
        vstd::arithmetic::div_mod::lemma_div_is_ordered(-b, -a, d);
    }
}

/// Cell quantization keeps order.
pub proof fn lemma_scaled_cell_mono(a: int, b: int, cap: int)
    requires
        a <= b,
        cap >= 0,
    ensures
        scaled_cell(a, cap) <= scaled_cell(b, cap),
{
    lemma_div_trunc_ordered(a, b, FILL_SCALE as int);
}

/// A strategy that ranks 2-D positions along a space-filling curve. `number_of`
/// maps a (milli-unit) position to its curve order; `pair_of` maps an order
/// back to the south-west corner of its curve cell.
pub trait SpaceFillingCurve {
    type T: TreeValue;

    /// The curve order of a raw position, at the specification level.
    spec fn order_spec(x: int, y: int) -> u64;

    /// The representative position of a curve order, at the specification
    /// level.
    spec fn pair_spec(order: u64) -> (i64, i64);

    /// Whether the strategy's order respects the componentwise order of
    /// positions; range pruning is exact only for such strategies.
    spec fn monotone() -> bool;

    proof fn lemma_mono(x: int, y: int, x2: int, y2: int)
        requires
            Self::monotone(),
            x <= x2,
            y <= y2,
        ensures
            Self::order_spec(x, y) <= Self::order_spec(x2, y2),
    ;

    fn number_of(x: i64, y: i64) -> (r: u64)
        requires
            x > i64::MIN,
            y > i64::MIN,
        ensures
            r == Self::order_spec(x as int, y as int),
    ;

    fn order_of(v: &Self::T) -> (r: u64)
        requires
            v.pos().x > i64::MIN,
            v.pos().y > i64::MIN,
        ensures
            r == Self::order_spec(v.pos().x as int, v.pos().y as int),
    {
        Self::number_of(v.x(), v.y())
    }

    fn pair_of(order: u64) -> (p: (i64, i64))
        ensures
            p == Self::pair_spec(order),
    ;
}

/// Z-order (Morton) strategy: 16 bits per axis.
pub struct ZOrderCurve<T> {
    _t: core::marker::PhantomData<T>,
}

impl<T: TreeValue> SpaceFillingCurve for ZOrderCurve<T> {
    type T = T;

    open spec fn order_spec(x: int, y: int) -> u64 {
        z_interleave(scaled_cell(x, 0xFFFF), scaled_cell(y, 0xFFFF), 16) as u64
    }

    open spec fn pair_spec(order: u64) -> (i64, i64) {
        (
            (z_pair_x(order as int, 32) * FILL_SCALE) as i64,
            (z_pair_y(order as int, 32) * FILL_SCALE) as i64,
        )
    }

    open spec fn monotone() -> bool {
        true
    }

    proof fn lemma_mono(x: int, y: int, x2: int, y2: int) {
        lemma_scaled_cell_mono(x, x2, 0xFFFF);
        lemma_scaled_cell_mono(y, y2, 0xFFFF);
        lemma2_to64();
        lemma_z_interleave_mono(
            scaled_cell(x, 0xFFFF),
            scaled_cell(y, 0xFFFF),
            scaled_cell(x2, 0xFFFF),
            scaled_cell(y2, 0xFFFF),
            16,
        );
        lemma_z_interleave_bound(scaled_cell(x, 0xFFFF), scaled_cell(y, 0xFFFF), 16);
        lemma_z_interleave_bound(scaled_cell(x2, 0xFFFF), scaled_cell(y2, 0xFFFF), 16);
    }

    fn number_of(x: i64, y: i64) -> (r: u64) {
        let sx = scaled_cell_i64(x, 0xFFFF);
        let sy = scaled_cell_i64(y, 0xFFFF);
        proof {
            lemma2_to64();
            lemma_z_interleave_bound(sx as int, sy as int, 16);
        }
        z_order(sx as u64, sy as u64, 16)
    }

    fn pair_of(order: u64) -> (p: (i64, i64)) {
        let (zx, zy) = z_order_split(order);
        proof {
            lemma_z_pair_bound(order as int, 32);
            lemma2_to64();
            lemma2_to64_rest();
        }
        ((zx as i64) * FILL_SCALE, (zy as i64) * FILL_SCALE)
    }
}

/// The order-8 Hilbert index of a cell pair; what `fast_hilbert::xy2h`
/// returns, a function of its arguments alone.
pub uninterp spec fn hilbert_order_of(x: u64, y: u64) -> u64;

/// The cell pair of an order-8 Hilbert index; what `fast_hilbert::h2xy`
/// returns, a function of its argument alone.
pub uninterp spec fn hilbert_pair_of(h: u64) -> (u64, u64);

/// Relies on `fast_hilbert::xy2h`: the order-8 Hilbert index of a cell pair
/// depends on the pair alone and stays below `2^16` (eight bits per axis,
/// two bits of index per level), and `fast_hilbert::h2xy` inverts it on the
/// 256-by-256 cell domain (the crate documents the two functions as the two
/// directions of the same curve transform).
#[verifier::external_body]
fn hilbert_forward(x: u64, y: u64) -> (r: u64)
    requires
        x < 256,
        y < 256,
    ensures
        r == hilbert_order_of(x, y),
        r < 0x10000,
        hilbert_pair_of(r) == (x, y),
{
    fast_hilbert::xy2h(x, y, 8) as u64
}

/// Relies on `fast_hilbert::h2xy`: the cell pair of a Hilbert index depends
/// on the index alone, and the 32-bit coordinate type bounds each component.
#[verifier::external_body]
fn hilbert_backward(h: u64) -> (r: (u32, u32))
    ensures
        (r.0 as u64, r.1 as u64) == hilbert_pair_of(h),
{
    fast_hilbert::h2xy::<u32>(h, 8)
}

/// Hilbert strategy: 8 bits per axis, delegating the curve transform to
/// `fast_hilbert`.
pub struct HilbertCurve<T> {
    _t: core::marker::PhantomData<T>,
}

impl<T: TreeValue> SpaceFillingCurve for HilbertCurve<T> {
    type T = T;

    open spec fn order_spec(x: int, y: int) -> u64 {
        hilbert_order_of(scaled_cell(x, 0xFF) as u64, scaled_cell(y, 0xFF) as u64)
    }

    open spec fn pair_spec(order: u64) -> (i64, i64) {
        (
            (hilbert_pair_of(order).0 * FILL_SCALE) as i64,
            (hilbert_pair_of(order).1 * FILL_SCALE) as i64,
        )
    }

    /// Hilbert order is not monotone in the coordinates, so the range pruning
    /// of the curve-sorted index is only a heuristic for it.
    open spec fn monotone() -> bool {
        false
    }

    proof fn lemma_mono(x: int, y: int, x2: int, y2: int) {
    }

    fn number_of(x: i64, y: i64) -> (r: u64)
        ensures
            r < 0x10000,
    {
        let sx = scaled_cell_i64(x, 0xFF);
        let sy = scaled_cell_i64(y, 0xFF);
        hilbert_forward(sx as u64, sy as u64)
    }

    fn pair_of(order: u64) -> (p: (i64, i64)) {
        let (hx, hy) = hilbert_backward(order);
        ((hx as i64) * FILL_SCALE, (hy as i64) * FILL_SCALE)
    }
}

/// Quantization round trip for the Z-order strategy: decoding the order of a
/// point recovers the south-west corner of its curve cell, less than one
/// fill-scale away on each axis for in-domain points.
pub proof fn lemma_z_curve_round_trip(x: int, y: int)
    requires
        0 <= x < 0x10000 * (FILL_SCALE as int),
        0 <= y < 0x10000 * (FILL_SCALE as int),
    ensures
        ({
            let p = <ZOrderCurve<crate::v2::V2> as SpaceFillingCurve>::pair_spec(
                <ZOrderCurve<crate::v2::V2> as SpaceFillingCurve>::order_spec(x, y),
            );
            p.0 == (x / FILL_SCALE as int) * FILL_SCALE && p.1 == (y / FILL_SCALE as int)
                * FILL_SCALE && x - FILL_SCALE < p.0 <= x && y - FILL_SCALE < p.1 <= y
        }),
{
    let sx = scaled_cell(x, 0xFFFF);
    let sy = scaled_cell(y, 0xFFFF);
    assert(div_trunc(x, FILL_SCALE as int) == x / FILL_SCALE as int);
    vstd::arithmetic::div_mod::lemma_multiply_divide_lt(x, FILL_SCALE as int, 0x10000);
    vstd::arithmetic::div_mod::lemma_multiply_divide_lt(y, FILL_SCALE as int, 0x10000);
    vstd::arithmetic::div_mod::lemma_div_pos_is_pos(x, FILL_SCALE as int);
    vstd::arithmetic::div_mod::lemma_div_pos_is_pos(y, FILL_SCALE as int);
    assert(sx == x / FILL_SCALE as int && sy == y / FILL_SCALE as int);
    lemma2_to64();
    lemma2_to64_rest();
    assert(0 <= sx < pow2(16) && 0 <= sy < pow2(16));
    let m = z_interleave(sx, sy, 16);
    lemma_z_interleave_bound(sx, sy, 16);
    lemma_z_round_trip(sx, sy, 16);
    lemma_z_pair_ext(m, 16, 16);
    let o = <ZOrderCurve<crate::v2::V2> as SpaceFillingCurve>::order_spec(x, y);
    assert(o == m as u64);
    assert(z_pair_x(o as int, 32) == sx && z_pair_y(o as int, 32) == sy);
    lemma_fundamental_div_mod(x, FILL_SCALE as int);
    lemma_fundamental_div_mod(y, FILL_SCALE as int);
}

/// Quantization round trip for the Hilbert strategy, at the scaled-cell
/// level: sending a cell pair through the curve and back returns the same
/// pair, and the order-8 index stays below `2^16`. Proved from the inverse
/// relation of the two `fast_hilbert` directions.
pub fn hilbert_cell_round_trip(x: u64, y: u64) -> (r: (u64, u64))
    requires
        x < 256,
        y < 256,
    ensures
        r == (x, y),
        (r.0, r.1) == hilbert_pair_of(hilbert_order_of(x, y)),
        hilbert_order_of(x, y) < 0x10000,
{
    let h = hilbert_forward(x, y);
    let p = hilbert_backward(h);
    (p.0 as u64, p.1 as u64)
}

} // verus!

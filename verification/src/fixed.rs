//! Exact fixed-point arithmetic for the coordinate-shaping pipeline.
//!
//! A coordinate of `1.0` (the unit-circle radius) is represented by the
//! integer [`SCALE`].  All operations are integer-exact: each executable
//! function's result equals a closed-form spec expression, so the pipeline's
//! edge cases (dead-zone boundaries, full-scale clamping) hold precisely.

use vstd::prelude::*;
use vstd::arithmetic::div_mod::{
    lemma_div_is_ordered, lemma_div_multiples_vanish, lemma_div_pos_is_pos,
    lemma_fundamental_div_mod,
};
use vstd::arithmetic::power::{
    lemma0_pow, lemma_pow0, lemma_pow1, lemma_pow_adds, lemma_pow_distributes,
    lemma_pow_increases, lemma_pow_multiplies, lemma_pow_positive, pow,
};

verus! {

/// Fixed-point representation of 1.0.
pub const SCALE: i64 = 1_000_000;

/// Truncating (round-toward-zero) division: the semantics of Rust's `/` on
/// signed integers.  For non-negative operands it coincides with Euclidean
/// division.
pub open spec fn tdiv(a: int, b: int) -> int
    recommends
        b != 0,
{
    if a >= 0 {
        if b >= 0 {
            a / b
        } else {
            -(a / -b)
        }
    } else {
        if b >= 0 {
            -(-a / b)
        } else {
            -a / -b
        }
    }
}

/// Truncating division has the magnitude of the Euclidean quotient of the
/// magnitudes: `|tdiv(a, b)| == |a| / b` for positive `b`.
pub proof fn lemma_tdiv_abs(a: int, b: int)
    requires
        b >= 1,
    ensures
        a >= 0 ==> tdiv(a, b) == a / b && tdiv(a, b) >= 0,
        a < 0 ==> tdiv(a, b) == -(-a / b) && tdiv(a, b) <= 0,
{
    if a >= 0 {
        lemma_div_pos_is_pos(a, b);
    } else {
        lemma_div_pos_is_pos(-a, b);
    }
}

/// Dividing by `b >= 1` cannot grow the magnitude beyond any bound on the
/// numerator.
pub proof fn lemma_tdiv_bound(a: int, b: int, m: int)
    requires
        b >= 1,
        -m <= a <= m,
        0 <= m,
    ensures
        -m <= tdiv(a, b) <= m,
{
    lemma_tdiv_abs(a, b);
    if a >= 0 {
        lemma_div_is_ordered(a, m, b);
        lemma_fundamental_div_mod(m, b);
        assert(m / b <= m) by (nonlinear_arith)
            requires b >= 1 && m >= 0 && m == b * (m / b) + m % b && 0 <= m % b,
        ;
    } else {
        lemma_div_is_ordered(-a, m, b);
        lemma_fundamental_div_mod(m, b);
        assert(m / b <= m) by (nonlinear_arith)
            requires b >= 1 && m >= 0 && m == b * (m / b) + m % b && 0 <= m % b,
        ;
    }
}

/// Truncating signed division of `i64` values.
pub fn div_i64(a: i64, b: i64) -> (r: i64)
    requires
        b >= 1,
    ensures
        r == tdiv(a as int, b as int),
{
    proof {
        lemma_tdiv_abs(a as int, b as int);
        lemma_tdiv_bound(a as int, b as int, if a >= 0 { a as int } else { -(a as int) });
    }
    a.checked_div(b).unwrap()
}

/// `tdiv(a * num, den)` computed without intermediate overflow.
pub fn mul_div_i64(a: i64, num: i64, den: i64) -> (r: i64)
    requires
        den >= 1,
        i64::MIN <= tdiv(a as int * num as int, den as int) <= i64::MAX,
    ensures
        r == tdiv(a as int * num as int, den as int),
{
    proof {
        assert(a as int * num as int <= 0x4000_0000_0000_0000_0000_0000_0000_0000
            && -0x4000_0000_0000_0000_0000_0000_0000_0000 <= a as int * num as int)
            by (nonlinear_arith)
            requires
                -0x8000_0000_0000_0000 <= a as int <= 0x7fff_ffff_ffff_ffff,
                -0x8000_0000_0000_0000 <= num as int <= 0x7fff_ffff_ffff_ffff,
        ;
    }
    let p: i128 = (a as i128) * (num as i128);
    proof {
        lemma_tdiv_abs(p as int, den as int);
        let m = if p >= 0 { p as int } else { -(p as int) };
        lemma_tdiv_bound(p as int, den as int, m);
    }
    let q: i128 = p.checked_div(den as i128).unwrap();
    q as i64
}

/// `r` is the integer square root of `n`.
pub open spec fn is_isqrt(n: int, r: int) -> bool {
    0 <= r && r * r <= n < (r + 1) * (r + 1)
}

/// The integer square root as a spec-level value; well defined because the
/// root is unique ([`lemma_isqrt_unique`]).
pub open spec fn isqrt_v(n: int) -> int {
    choose|r: int| is_isqrt(n, r)
}

pub proof fn lemma_isqrt_unique(n: int, r: int)
    requires
        is_isqrt(n, r),
    ensures
        r == isqrt_v(n),
{
    let r2 = isqrt_v(n);
    assert(is_isqrt(n, r2)) by {
        assert(exists|x: int| is_isqrt(n, x)) by {
            assert(is_isqrt(n, r));
        }
    }
    if r < r2 {
        assert((r + 1) * (r + 1) <= r2 * r2) by (nonlinear_arith)
            requires 0 <= r && r + 1 <= r2,
        ;
    } else if r2 < r {
        assert((r2 + 1) * (r2 + 1) <= r * r) by (nonlinear_arith)
            requires 0 <= r2 && r2 + 1 <= r,
        ;
    }
}

/// Integer square root by binary search, exact for the full `u128` range.
pub fn isqrt_u128(n: u128) -> (r: u64)
    ensures
        is_isqrt(n as int, r as int),
        r == isqrt_v(n as int),
{
    let mut lo: u128 = 0;
    let mut hi: u128 = 0x1_0000_0000_0000_0000;
    proof {
        assert((0x1_0000_0000_0000_0000 as int) * (0x1_0000_0000_0000_0000 as int)
            > u128::MAX as int) by (nonlinear_arith);
    }
    while lo + 1 < hi
        invariant
            lo < hi <= 0x1_0000_0000_0000_0000,
            lo * lo <= n as int,
            (n as int) < (hi as int) * (hi as int),
        decreases hi - lo,
    {
        let mid: u128 = lo + (hi - lo) / 2;
        proof {
            assert((mid as int) * (mid as int) <= u128::MAX as int) by (nonlinear_arith)
                requires mid as int <= 0xffff_ffff_ffff_ffff,
            ;
        }
        if mid * mid <= n {
            lo = mid;
        } else {
            hi = mid;
        }
    }
    proof {
        lemma_isqrt_unique(n as int, lo as int);
    }
    lo as u64
}

/// `r` is the fixed-point value of `b^(n/d)`, where `b` is fixed-point:
/// the unique integer with `(r/SCALE)^d <= (b/SCALE)^n < ((r+1)/SCALE)^d`,
/// written multiplicatively to stay in integers.
pub open spec fn is_pow_frac(b: int, n: nat, d: nat, r: int) -> bool {
    0 <= r && if n >= d {
        pow(r, d) * pow(SCALE as int, (n - d) as nat) <= pow(b, n)
            < pow(r + 1, d) * pow(SCALE as int, (n - d) as nat)
    } else {
        pow(r, d) <= pow(b, n) * pow(SCALE as int, (d - n) as nat) < pow(r + 1, d)
    }
}

/// The fixed-point power as a spec-level value; well defined because the
/// value is unique ([`lemma_pow_frac_unique`]).
pub open spec fn pow_frac_v(b: int, n: nat, d: nat) -> int {
    choose|r: int| is_pow_frac(b, n, d, r)
}

/// Base-monotonicity of `pow` over non-negative bases.
pub proof fn lemma_pow_base_le(a: int, b: int, e: nat)
    requires
        0 <= a <= b,
    ensures
        pow(a, e) <= pow(b, e),
    decreases e,
{
    reveal(pow);
    if e == 0 {
    } else {
        lemma_pow_base_le(a, b, (e - 1) as nat);
        lemma_pow_base_le(0, a, (e - 1) as nat);
        assert(pow(0, (e - 1) as nat) >= 0);
        assert(pow(a, e) == a * pow(a, (e - 1) as nat));
        assert(pow(b, e) == b * pow(b, (e - 1) as nat));
        assert(a * pow(a, (e - 1) as nat) <= b * pow(b, (e - 1) as nat)) by (nonlinear_arith)
            requires
                0 <= a <= b,
                0 <= pow(a, (e - 1) as nat),
                pow(a, (e - 1) as nat) <= pow(b, (e - 1) as nat),
        ;
    }
}

/// Strict base-monotonicity of `pow` for a positive exponent.
pub proof fn lemma_pow_base_lt(a: int, b: int, e: nat)
    requires
        0 <= a < b,
        e >= 1,
    ensures
        pow(a, e) < pow(b, e),
    decreases e,
{
    reveal(pow);
    if e == 1 {
        assert(pow(a, 1) == a * pow(a, 0));
        assert(pow(b, 1) == b * pow(b, 0));
        lemma_pow0(a);
        lemma_pow0(b);
    } else {
        lemma_pow_base_lt(a, b, (e - 1) as nat);
        lemma_pow_positive(b, (e - 1) as nat);
        assert(pow(a, (e - 1) as nat) >= 0) by {
            lemma_pow_base_le(0, a, (e - 1) as nat);
            assert(pow(0, (e - 1) as nat) >= 0);
        }
        assert(pow(a, e) == a * pow(a, (e - 1) as nat));
        assert(pow(b, e) == b * pow(b, (e - 1) as nat));
        assert(a * pow(a, (e - 1) as nat) < b * pow(b, (e - 1) as nat)) by (nonlinear_arith)
            requires
                0 <= a < b,
                0 <= pow(a, (e - 1) as nat) < pow(b, (e - 1) as nat),
        ;
    }
}

pub proof fn lemma_pow_frac_unique(b: int, n: nat, d: nat, r: int)
    requires
        is_pow_frac(b, n, d, r),
        d >= 1,
    ensures
        r == pow_frac_v(b, n, d),
{
    let r2 = pow_frac_v(b, n, d);
    assert(is_pow_frac(b, n, d, r2)) by {
        assert(exists|x: int| is_pow_frac(b, n, d, x)) by {
            assert(is_pow_frac(b, n, d, r));
        }
    }
    if r < r2 {
        lemma_pow_base_le(r + 1, r2, d);
        if n >= d {
            vstd::arithmetic::power::lemma_pow_positive(SCALE as int, (n - d) as nat);
            assert(pow(r + 1, d) * pow(SCALE as int, (n - d) as nat)
                <= pow(r2, d) * pow(SCALE as int, (n - d) as nat)) by (nonlinear_arith)
                requires
                    pow(r + 1, d) <= pow(r2, d),
                    pow(SCALE as int, (n - d) as nat) > 0,
            ;
        }
    } else if r2 < r {
        lemma_pow_base_le(r2 + 1, r, d);
        if n >= d {
            vstd::arithmetic::power::lemma_pow_positive(SCALE as int, (n - d) as nat);
            assert(pow(r2 + 1, d) * pow(SCALE as int, (n - d) as nat)
                <= pow(r, d) * pow(SCALE as int, (n - d) as nat)) by (nonlinear_arith)
                requires
                    pow(r2 + 1, d) <= pow(r, d),
                    pow(SCALE as int, (n - d) as nat) > 0,
            ;
        }
    }
}

/// Scaling by `a/m` cannot grow a value bounded by `m` beyond `a`.
pub proof fn lemma_tdiv_scale_bound(x: int, a: int, m: int)
    requires
        m >= 1,
        -m <= x <= m,
        a >= 0,
    ensures
        -a <= tdiv(x * a, m) <= a,
{
    assert(-(m * a) <= x * a <= m * a) by (nonlinear_arith)
        requires -m <= x <= m && a >= 0,
    ;
    lemma_tdiv_abs(x * a, m);
    if x * a >= 0 {
        lemma_div_is_ordered(x * a, m * a, m);
        vstd::arithmetic::div_mod::lemma_div_by_multiple(a, m);
        assert(m * a == a * m) by (nonlinear_arith);
    } else {
        lemma_div_is_ordered(-(x * a), m * a, m);
        vstd::arithmetic::div_mod::lemma_div_by_multiple(a, m);
        assert(m * a == a * m) by (nonlinear_arith);
    }
}

/// An average of values bounded by `lim` is bounded by `lim`.
pub proof fn lemma_tdiv_avg_bound(sum: int, cnt: int, lim: int)
    requires
        cnt >= 1,
        lim >= 0,
        -(cnt * lim) <= sum <= cnt * lim,
    ensures
        -lim <= tdiv(sum, cnt) <= lim,
{
    lemma_tdiv_abs(sum, cnt);
    vstd::arithmetic::div_mod::lemma_div_by_multiple(lim, cnt);
    assert(cnt * lim == lim * cnt) by (nonlinear_arith);
    if sum >= 0 {
        lemma_div_is_ordered(sum, cnt * lim, cnt);
    } else {
        lemma_div_is_ordered(-sum, cnt * lim, cnt);
    }
}

/// A fixed-point power of a base at most one stays at most one.
pub proof fn lemma_pow_frac_le_scale(b: int, n: nat, d: nat, r: int)
    requires
        is_pow_frac(b, n, d, r),
        0 <= b <= SCALE as int,
        1 <= d,
        1 <= n,
    ensures
        r <= SCALE as int,
{
    let s = SCALE as int;
    if r > s {
        lemma_pow_base_le(b, s, n);
        lemma_pow_base_lt(s, r, d);
        assert(pow(s, d) < pow(r, d));
        if n >= d {
            lemma_pow_adds(s, d, (n - d) as nat);
            assert(pow(s, n) == pow(s, d) * pow(s, (n - d) as nat));
            lemma_pow_positive(s, (n - d) as nat);
            assert(pow(r, d) * pow(s, (n - d) as nat) > pow(s, d) * pow(s, (n - d) as nat))
                by (nonlinear_arith)
                requires
                    pow(r, d) > pow(s, d),
                    pow(s, (n - d) as nat) > 0,
            ;
            assert(pow(b, n) <= pow(s, n));
            assert(false);
        } else {
            lemma_pow_adds(s, n, (d - n) as nat);
            assert(pow(s, d) == pow(s, n) * pow(s, (d - n) as nat));
            lemma_pow_positive(s, (d - n) as nat);
            assert(pow(b, n) * pow(s, (d - n) as nat) <= pow(s, n) * pow(s, (d - n) as nat))
                by (nonlinear_arith)
                requires
                    pow(b, n) <= pow(s, n),
                    pow(s, (d - n) as nat) > 0,
            ;
            assert(false);
        }
    }
}

/// Concrete powers used in the overflow arguments below.
proof fn lemma_scale_pows()
    ensures
        pow(1_000_000, 1) == 1_000_000,
        pow(1_000_000, 2) == 1_000_000_000_000,
        pow(1_000_000, 3) == 1_000_000_000_000_000_000,
        pow(1_000_000, 6) == 1_000_000_000_000_000_000_000_000_000_000_000_000,
        pow(2, 1) == 2,
        pow(2, 2) == 4,
        pow(2, 3) == 8,
        pow(2, 6) == 64,
        pow(8_000_000, 3) == 512_000_000_000_000_000_000,
{
    reveal(pow);
    assert(pow(1_000_000, 0) == 1);
    assert(pow(1_000_000, 1) == 1_000_000 * pow(1_000_000, 0));
    assert(pow(1_000_000, 2) == 1_000_000 * pow(1_000_000, 1));
    assert(pow(1_000_000, 3) == 1_000_000 * pow(1_000_000, 2));
    assert(pow(1_000_000, 4) == 1_000_000 * pow(1_000_000, 3));
    assert(pow(1_000_000, 5) == 1_000_000 * pow(1_000_000, 4));
    assert(pow(1_000_000, 6) == 1_000_000 * pow(1_000_000, 5));
    assert(pow(2, 0) == 1);
    assert(pow(2, 1) == 2 * pow(2, 0));
    assert(pow(2, 2) == 2 * pow(2, 1));
    assert(pow(2, 3) == 2 * pow(2, 2));
    assert(pow(2, 4) == 2 * pow(2, 3));
    assert(pow(2, 5) == 2 * pow(2, 4));
    assert(pow(2, 6) == 2 * pow(2, 5));
    assert(pow(8_000_000, 0) == 1);
    assert(pow(8_000_000, 1) == 8_000_000 * pow(8_000_000, 0));
    assert(pow(8_000_000, 2) == 8_000_000 * pow(8_000_000, 1));
    assert(pow(8_000_000, 3) == 8_000_000 * pow(8_000_000, 2));
}

/// Exact `b^e` on `u128`, for exponents whose result is known to fit.
fn pow_u128(b: u128, e: u32) -> (r: u128)
    requires
        pow(b as int, e as nat) <= u128::MAX as int,
    ensures
        r as int == pow(b as int, e as nat),
{
    if e == 0 {
        proof {
            reveal(pow);
        }
        return 1;
    }
    if b == 0 {
        proof {
            lemma0_pow(e as nat);
        }
        return 0;
    }
    let mut acc: u128 = 1;
    let mut i: u32 = 0;
    proof {
        reveal(pow);
    }
    while i < e
        invariant
            i <= e,
            b >= 1,
            acc as int == pow(b as int, i as nat),
            pow(b as int, e as nat) <= u128::MAX as int,
        decreases e - i,
    {
        proof {
            lemma_pow_increases(b as nat, (i + 1) as nat, e as nat);
            reveal(pow);
            assert(pow(b as int, (i + 1) as nat) == b as int * pow(b as int, i as nat));
        }
        acc = b * acc;
        i = i + 1;
    }
    acc
}

/// `b^(n/d)` in fixed point: `base` is a fixed-point value in `[0, 2]`, the
/// exponent is the rational `n/d`, and the result is the unique fixed-point
/// integer below the real power ([`is_pow_frac`]).  When `n == d` the
/// exponent is one and the value is returned unchanged.
pub fn fixed_pow(base: u64, n: u32, d: u32) -> (r: u64)
    requires
        1 <= n <= 6,
        1 <= d <= 3,
        base as int <= 2 * SCALE as int,
    ensures
        is_pow_frac(base as int, n as nat, d as nat, r as int),
        r == pow_frac_v(base as int, n as nat, d as nat),
        r as int <= 64 * SCALE as int,
        n == d ==> r == base,
{
    let ghost b = base as int;
    proof {
        lemma_scale_pows();
        assert(pow(2_000_000, 6) == pow(2, 6) * pow(1_000_000, 6)) by {
            lemma_pow_distributes(2, 1_000_000, 6);
        }
        lemma_pow_increases(2_000_000, n as nat, 6);
        lemma_pow_base_le(b, 2_000_000, n as nat);
        lemma_pow_positive(2, n as nat);
        lemma_pow_base_le(0, b, n as nat);
        assert(pow(0, n as nat) >= 0) by {
            lemma0_pow(n as nat);
        }
    }
    if n == d {
        proof {
            lemma_pow_base_lt(b, b + 1, n as nat);
            vstd::arithmetic::power::lemma_pow_positive(SCALE as int, 0);
            assert(pow(SCALE as int, 0) == 1) by {
                lemma_pow0(SCALE as int);
            }
            assert(((n as nat) - (d as nat)) as nat == 0);
            assert(pow(b, n as nat) * pow(SCALE as int, 0) == pow(b, n as nat))
                by (nonlinear_arith)
                requires pow(SCALE as int, 0) == 1,
            ;
            assert(pow(b + 1, n as nat) * pow(SCALE as int, 0) == pow(b + 1, n as nat))
                by (nonlinear_arith)
                requires pow(SCALE as int, 0) == 1,
            ;
            assert(is_pow_frac(b, n as nat, d as nat, b));
            lemma_pow_frac_unique(b, n as nat, d as nat, b);
        }
        return base;
    }
    let bn: u128 = pow_u128(base as u128, n);
    if d == 1 {
        // The root is trivial; divide out the excess powers of SCALE.
        proof {
            lemma_pow_increases(1_000_000, (n - 1) as nat, 6);
            vstd::arithmetic::power::lemma_pow_positive(1_000_000, (n - 1) as nat);
        }
        let sp: u128 = pow_u128(1_000_000, n - 1);
        let t: u128 = bn / sp;
        proof {
            let spi = pow(SCALE as int, (n - 1) as nat);
            lemma_fundamental_div_mod(bn as int, spi);
            // t <= 2^n * SCALE
            assert(pow(2_000_000, n as nat) == pow(2, n as nat) * pow(1_000_000, n as nat)) by {
                lemma_pow_distributes(2, 1_000_000, n as nat);
            }
            assert(pow(1_000_000, n as nat) == pow(1_000_000, (n - 1) as nat) * 1_000_000) by {
                lemma_pow_adds(1_000_000, (n - 1) as nat, 1);
                lemma_pow1(1_000_000);
            }
            lemma_pow_increases(2, n as nat, 6);
            lemma_div_is_ordered(bn as int, pow(2_000_000, n as nat), spi);
            assert((pow(2, n as nat) * (spi * 1_000_000)) / spi == pow(2, n as nat) * 1_000_000)
                by (nonlinear_arith)
                requires spi > 0,
            {
                lemma_div_multiples_vanish(pow(2, n as nat) * 1_000_000, spi);
            }
            assert(t as int <= 64 * 1_000_000);
            // is_pow_frac for d == 1
            lemma_pow1(t as int);
            lemma_pow1((t as int) + 1);
            assert(t as int * spi <= bn as int) by (nonlinear_arith)
                requires
                    bn as int == spi * (t as int) + (bn as int) % spi,
                    (bn as int) % spi >= 0,
                    spi > 0,
            ;
            assert((bn as int) < ((t as int) + 1) * spi) by (nonlinear_arith)
                requires
                    bn as int == spi * (t as int) + (bn as int) % spi,
                    (bn as int) % spi < spi,
                    spi > 0,
            ;
            assert(is_pow_frac(b, n as nat, 1, t as int));
            lemma_pow_frac_unique(b, n as nat, d as nat, t as int);
        }
        return t as u64;
    }
    // d is 2 or 3 and n != d: compute t = b^n scaled to d powers of SCALE,
    // then take the d-th integer root by binary search.
    let k: u32 = if n >= d { n - d } else { d - n };
    proof {
        lemma_pow_increases(1_000_000, k as nat, 6);
        vstd::arithmetic::power::lemma_pow_positive(1_000_000, k as nat);
    }
    let sp: u128 = pow_u128(1_000_000, k);
    let ghost spi = pow(SCALE as int, k as nat);
    let ghost powd = pow(SCALE as int, d as nat);
    proof {
        // pow(b, n) * adjustments stay under 2^n * SCALE^d <= 64 * SCALE^3
        assert(pow(2_000_000, n as nat) == pow(2, n as nat) * pow(1_000_000, n as nat)) by {
            lemma_pow_distributes(2, 1_000_000, n as nat);
        }
        lemma_pow_increases(2, n as nat, 6);
        vstd::arithmetic::power::lemma_pow_positive(1_000_000, n as nat);
        vstd::arithmetic::power::lemma_pow_positive(1_000_000, d as nat);
        lemma_pow_increases(1_000_000, d as nat, 3);
    }
    let t: u128 = if n >= d {
        proof {
            // bn / sp <= 2^n * SCALE^d, exactly as in the d == 1 case
            lemma_fundamental_div_mod(bn as int, spi);
            assert(pow(1_000_000, n as nat) == spi * powd) by {
                lemma_pow_adds(1_000_000, k as nat, d as nat);
            }
            lemma_div_is_ordered(bn as int, pow(2_000_000, n as nat), spi);
            assert((pow(2, n as nat) * (spi * powd)) / spi == pow(2, n as nat) * powd)
                by (nonlinear_arith)
                requires spi > 0,
            {
                lemma_div_multiples_vanish(pow(2, n as nat) * powd, spi);
            }
        }
        bn / sp
    } else {
        proof {
            assert(pow(1_000_000, n as nat) * spi == powd) by {
                lemma_pow_adds(1_000_000, n as nat, k as nat);
            }
            assert(pow(b, n as nat) * spi <= pow(2, n as nat) * powd) by (nonlinear_arith)
                requires
                    0 <= pow(b, n as nat) <= pow(2, n as nat) * pow(1_000_000, n as nat),
                    spi > 0,
                    pow(1_000_000, n as nat) * spi == powd,
            ;
            assert(pow(2, n as nat) * powd <= 64 * 1_000_000_000_000_000_000) by (nonlinear_arith)
                requires
                    0 <= pow(2, n as nat) <= 64,
                    0 < powd <= 1_000_000_000_000_000_000,
            ;
        }
        bn * sp
    };
    proof {
        assert(t as int <= pow(2, n as nat) * powd) by {
            if n >= d {
            } else {
                assert(pow(b, n as nat) * spi <= pow(2, n as nat) * powd);
            }
        }
        assert(pow(2, n as nat) * powd <= 64 * 1_000_000_000_000_000_000) by (nonlinear_arith)
            requires
                0 <= pow(2, n as nat) <= 64,
                0 < powd <= 1_000_000_000_000_000_000,
        ;
    }
    // hi bound for the root search: 2^ceil(n/d) in fixed point.
    let cl: u32 = if n <= d { 1 } else if n <= 2 * d { 2 } else { 3 };
    let c: u128 = if cl == 1 { 2 } else if cl == 2 { 4 } else { 8 };
    proof {
        assert(c as int == pow(2, cl as nat));
        if cl == 1 {
            assert(cl as int * d as int == d as int);
        } else if cl == 2 {
            assert(cl as int * d as int == 2 * d as int);
        } else {
            assert(cl as int * d as int == 3 * d as int);
        }
        assert(cl as int * d as int >= n as int);
    }
    let hi0: u128 = c * 1_000_000 + 1;
    let ghost ci = c as int;
    proof {
        // t < pow(hi0, d): pow(c*SCALE, d) = c^d * SCALE^d >= 2^n * SCALE^d >= t
        assert(pow(ci * 1_000_000, d as nat) == pow(ci, d as nat) * powd) by {
            lemma_pow_distributes(ci, 1_000_000, d as nat);
        }
        assert(pow(ci, d as nat) == pow(2, (cl * d) as nat)) by {
            lemma_pow_multiplies(2, cl as nat, d as nat);
        }
        assert(pow(2, (cl * d) as nat) >= pow(2, n as nat)) by {
            assert(cl * d >= n);
            lemma_pow_increases(2, n as nat, (cl * d) as nat);
        }
        assert(pow(ci, d as nat) * powd >= pow(2, n as nat) * powd) by (nonlinear_arith)
            requires
                pow(ci, d as nat) >= pow(2, n as nat),
                powd > 0,
        ;
        lemma_pow_base_lt(ci * 1_000_000, hi0 as int, d as nat);
        assert((t as int) < pow(hi0 as int, d as nat));
    }
    let mut lo: u128 = 0;
    let mut hi: u128 = hi0;
    proof {
        lemma0_pow(d as nat);
    }
    while lo + 1 < hi
        invariant
            lo < hi <= 8_000_001,
            1 <= d <= 3,
            pow(lo as int, d as nat) <= t as int,
            (t as int) < pow(hi as int, d as nat),
        decreases hi - lo,
    {
        let mid: u128 = lo + (hi - lo) / 2;
        proof {
            lemma_scale_pows();
            lemma_pow_base_le(mid as int, 8_000_000, d as nat);
            lemma_pow_increases(8_000_000, d as nat, 3);
        }
        let md: u128 = pow_u128(mid, d);
        if md <= t {
            lo = mid;
        } else {
            hi = mid;
        }
    }
    proof {
        assert(hi == lo + 1);
        // Translate the root bracket into is_pow_frac.
        let r = lo as int;
        let ti = t as int;
        if n >= d {
            lemma_fundamental_div_mod(bn as int, spi);
            assert(pow(r, d as nat) * spi <= bn as int) by (nonlinear_arith)
                requires
                    pow(r, d as nat) <= ti,
                    bn as int == spi * ti + (bn as int) % spi,
                    (bn as int) % spi >= 0,
                    spi > 0,
            ;
            assert((bn as int) < (ti + 1) * spi) by (nonlinear_arith)
                requires
                    bn as int == spi * ti + (bn as int) % spi,
                    (bn as int) % spi < spi,
                    spi > 0,
            ;
            assert((ti + 1) * spi <= pow(r + 1, d as nat) * spi) by (nonlinear_arith)
                requires
                    ti + 1 <= pow(r + 1, d as nat),
                    spi > 0,
            ;
            assert(is_pow_frac(b, n as nat, d as nat, r));
        } else {
            assert(ti == pow(b, n as nat) * spi);
            assert(is_pow_frac(b, n as nat, d as nat, r));
        }
        lemma_pow_frac_unique(b, n as nat, d as nat, lo as int);
    }
    lo as u64
}

} // verus!

//! Fixed-point scalars: a real number `x` is held as the integer `x * ONE`.
use vstd::prelude::*;

verus! {

/// The number of raw units in 1.0.
pub const ONE: i64 = 1_000_000;

/// The largest coordinate magnitude, in raw units, that vectors of a scene may hold.
pub const LIMIT: i64 = 10_000_000_000;

/// The largest component magnitude, in raw units, of vectors that products accept.
pub const WIDE: i64 = 1_000_000_000_000;

/// Product of two fixed-point numbers, rounded down.
pub open spec fn fmul(a: int, b: int) -> int {
    (a * b) / (ONE as int)
}

/// Quotient of two fixed-point numbers, rounded down; the divisor is not zero.
pub open spec fn fdiv(a: int, b: int) -> int {
    if b > 0 {
        (a * ONE) / b
    } else {
        (-(a * ONE)) / (-b)
    }
}

/// Division rounding toward zero, for a positive divisor.
pub open spec fn tdiv(n: int, d: int) -> int {
    if n >= 0 { n / d } else { -((-n) / d) }
}

/// `r` is the integer square root of `n`.
pub open spec fn is_isqrt(r: int, n: int) -> bool {
    0 <= r && r * r <= n && n < (r + 1) * (r + 1)
}

pub open spec fn fits_i64(x: int) -> bool {
    i64::MIN <= x <= i64::MAX
}

pub proof fn lemma_floor_div_bounds(n: int, d: int)
    requires
        d > 0,
    ensures
        n >= 0 ==> 0 <= n / d <= n,
        n < 0 ==> n <= n / d < 0,
{
    vstd::arithmetic::div_mod::lemma_fundamental_div_mod(n, d);
    if n >= 0 {
        vstd::arithmetic::div_mod::lemma_div_pos_is_pos(n, d);
        vstd::arithmetic::div_mod::lemma_div_is_ordered_by_denominator(n, 1, d);
    } else {
        assert(d * (n / d) <= n) by {
            assert(n % d >= 0);
        }
        assert(n / d < 0) by (nonlinear_arith)
            requires d * (n / d) <= n, n < 0, d > 0;
        assert(n <= n / d) by (nonlinear_arith)
            requires d * (n / d) + n % d == n, 0 <= n % d < d, n < 0, d > 0, n / d < 0;
    }
}

/// Division rounding toward negative infinity.
pub fn floor_div(n: i128, d: i128) -> (q: i128)
    requires
        d > 0,
    ensures
        q == n as int / d as int,
{
    proof {
        lemma_floor_div_bounds(n as int, d as int);
    }
    match n.checked_div_euclid(d) {
        Some(q) => q,
        None => 0,
    }
}

pub proof fn lemma_mul_fits_i128(a: i64, b: i64)
    ensures
        -0x4000_0000_0000_0000_0000_0000_0000_0000 <= a * b <= 0x4000_0000_0000_0000_0000_0000_0000_0000,
{
    assert(-0x4000_0000_0000_0000_0000_0000_0000_0000 <= a * b <= 0x4000_0000_0000_0000_0000_0000_0000_0000) by (nonlinear_arith)
        requires -0x8000_0000_0000_0000 <= a <= 0x7fff_ffff_ffff_ffff, -0x8000_0000_0000_0000 <= b <= 0x7fff_ffff_ffff_ffff;
}

/// The fixed-point product of `a` and `b`.
pub fn mul_fixed(a: i64, b: i64) -> (r: i128)
    ensures
        r == fmul(a as int, b as int),
{
    proof {
        lemma_mul_fits_i128(a, b);
    }
    floor_div(a as i128 * b as i128, ONE as i128)
}

/// The fixed-point quotient of `a` by `b`.
pub fn div_fixed(a: i64, b: i64) -> (r: i128)
    requires
        b != 0,
    ensures
        r == fdiv(a as int, b as int),
{
    proof {
        lemma_mul_fits_i128(a, ONE);
    }
    let n: i128 = a as i128 * ONE as i128;
    if b > 0 {
        floor_div(n, b as i128)
    } else {
        floor_div(-n, -(b as i128))
    }
}

/// Division rounding toward zero.
pub fn trunc_div(n: i128, d: i128) -> (q: i128)
    requires
        d > 0,
        n > i128::MIN,
    ensures
        q == tdiv(n as int, d as int),
{
    if n >= 0 {
        floor_div(n, d)
    } else {
        proof {
            lemma_floor_div_bounds(-n as int, d as int);
        }
        -floor_div(-n, d)
    }
}

/// Bounds a quotient rounded toward zero, and its remainder.
pub proof fn lemma_tdiv_range(n: int, m: int, d: int)
    requires
        d > 0,
        m >= 0,
        -m <= n <= m,
    ensures
        -(m / d) <= tdiv(n, d) <= m / d,
        -d < n - d * tdiv(n, d) < d,
        tdiv(-n, d) == -tdiv(n, d),
{
    vstd::arithmetic::div_mod::lemma_div_is_ordered(n, m, d);
    vstd::arithmetic::div_mod::lemma_div_is_ordered(-n, m, d);
    vstd::arithmetic::div_mod::lemma_fundamental_div_mod(n, d);
    vstd::arithmetic::div_mod::lemma_fundamental_div_mod(-n, d);
    if n >= 0 {
        assert(n - d * tdiv(n, d) == n % d);
    } else {
        assert(n - d * tdiv(n, d) == -((-n) % d)) by (nonlinear_arith)
            requires
                tdiv(n, d) == -((-n) / d),
                d * ((-n) / d) + (-n) % d == -n;
    }
    if n == 0 {
        assert(0int / d == 0);
    }
}

/// The integer square root of a non-negative `n`.
pub open spec fn sqrt_floor(n: int) -> int {
    choose|r: int| is_isqrt(r, n)
}

pub proof fn lemma_isqrt_unique(r: int, n: int)
    requires
        is_isqrt(r, n),
    ensures
        sqrt_floor(n) == r,
{
    let s = sqrt_floor(n);
    assert(is_isqrt(s, n));
    if s < r {
        assert((s + 1) * (s + 1) <= r * r) by (nonlinear_arith)
            requires 0 <= s, s + 1 <= r;
    } else if r < s {
        assert((r + 1) * (r + 1) <= s * s) by (nonlinear_arith)
            requires 0 <= r, r + 1 <= s;
    }
}

/// Every non-negative integer has an integer square root.
pub proof fn lemma_isqrt_exists(n: int)
    requires
        n >= 0,
    ensures
        is_isqrt(sqrt_floor(n), n),
    decreases n,
{
    if n == 0 {
        assert(is_isqrt(0, 0));
    } else {
        lemma_isqrt_exists(n - 1);
        let s = sqrt_floor(n - 1);
        if (s + 1) * (s + 1) <= n {
            assert(n < (s + 2) * (s + 2)) by (nonlinear_arith)
                requires (s + 1) * (s + 1) > n - 1, s >= 0;
            assert(is_isqrt(s + 1, n));
        } else {
            assert(is_isqrt(s, n));
        }
    }
}

/// Bounds a product: `|a| <= x` and `|b| <= y` give `|a * b| <= x * y`.
pub proof fn lemma_mul_bound(a: int, b: int, x: int, y: int)
    requires
        -x <= a <= x,
        -y <= b <= y,
    ensures
        -(x * y) <= a * b <= x * y,
{
    assert(-(x * y) <= a * b <= x * y) by (nonlinear_arith)
        requires -x <= a <= x, -y <= b <= y;
}

/// Bounds a rounded-down quotient by those of its numerator.
pub proof fn lemma_div_range(n: int, m: int, d: int)
    requires
        d > 0,
        m >= 0,
        -m <= n <= m,
    ensures
        -(m / d) - 1 <= n / d <= m / d,
{
    vstd::arithmetic::div_mod::lemma_div_is_ordered(n, m, d);
    vstd::arithmetic::div_mod::lemma_div_is_ordered(-m, n, d);
    vstd::arithmetic::div_mod::lemma_fundamental_div_mod(m, d);
    vstd::arithmetic::div_mod::lemma_fundamental_div_mod(-m, d);
    assert((-m) / d >= -(m / d) - 1) by (nonlinear_arith)
        requires
            d * (m / d) + m % d == m,
            d * ((-m) / d) + (-m) % d == -m,
            0 <= m % d < d,
            0 <= (-m) % d < d,
            d > 0;
}

/// Bounds a fixed-point product.
pub proof fn lemma_fmul_bound(a: int, b: int, x: int, y: int)
    requires
        -x <= a <= x,
        -y <= b <= y,
    ensures
        -((x * y) / (ONE as int)) - 1 <= fmul(a, b) <= (x * y) / (ONE as int),
{
    lemma_mul_bound(a, b, x, y);
    lemma_div_range(a * b, x * y, ONE as int);
}

/// Integer square root by bisection.
pub fn isqrt(n: i128) -> (r: i128)
    requires
        0 <= n < 0x4000_0000_0000_0000_0000_0000_0000_0000,
    ensures
        is_isqrt(r as int, n as int),
        r == sqrt_floor(n as int),
{
    let mut lo: i128 = 0;
    let mut hi: i128 = 0x8000_0000_0000_0000;
    assert(hi * hi == 0x4000_0000_0000_0000_0000_0000_0000_0000);
    while hi - lo > 1
        invariant
            0 <= lo < hi <= 0x8000_0000_0000_0000,
            lo * lo <= n,
            n < hi * hi,
        decreases hi - lo,
    {
        let mid: i128 = lo + (hi - lo) / 2;
        assert(mid * mid <= 0x8000_0000_0000_0000 * 0x8000_0000_0000_0000) by (nonlinear_arith)
            requires 0 <= mid <= 0x8000_0000_0000_0000;
        if mid * mid <= n {
            lo = mid;
        } else {
            hi = mid;
        }
    }
    assert(hi == lo + 1);
    proof {
        lemma_isqrt_unique(lo as int, n as int);
    }
    lo
}

} // verus!

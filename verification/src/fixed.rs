//! Fixed-point arithmetic: rounded division and the integer square root.

use vstd::prelude::*;

verus! {

/// Number of fixed-point units in one whole: a coordinate of `SCALE` is one
/// board cell, a time span of `SCALE` is one millisecond.
pub const SCALE: i64 = 1_000_000;

/// Tolerance under which two fixed-point numbers count as equal: one
/// hundredth.
pub const EPSILON: i64 = 10_000;

/// Largest magnitude of a coordinate of the snake: 2500 cells. Within it every
/// segment is at most `LENGTH_LIMIT` long.
pub const COORD_LIMIT: i64 = 2_500_000_000;

/// Longest vector that can be normalized: ten thousand cells. A unit vector
/// holds six decimals, so scaled back to a greater length it would miss the
/// vector that it came from by more than the tolerance.
pub const LENGTH_LIMIT: i64 = 10_000_000_000;

/// Largest magnitude of a coordinate whose differences with other such
/// coordinates, and the lengths made of them, fit the machine representation.
pub const REACH_LIMIT: i64 = 1_000_000_000_000_000_000;

/// Absolute value.
pub open spec fn abs(a: int) -> int {
    if a < 0 {
        -a
    } else {
        a
    }
}

/// The quotient `a / b` rounded to the nearest integer, a tie going away from
/// zero. Meant for `b > 0`.
pub open spec fn div_round(a: int, b: int) -> int {
    if a >= 0 {
        (2 * a + b) / (2 * b)
    } else {
        -((2 * (-a) + b) / (2 * b))
    }
}

/// The product of two fixed-point numbers, as a fixed-point number.
pub open spec fn fixed_mul(a: int, b: int) -> int {
    div_round(a * b, SCALE as int)
}

/// Whether two fixed-point numbers differ by less than `EPSILON`.
pub open spec fn are_equal_spec(a: int, b: int) -> bool {
    abs(a - b) < EPSILON
}

/// The integer square root: the largest `r` with `r * r <= n`
/// (see `lemma_isqrt_bounds` and `lemma_isqrt_unique`).
pub open spec fn isqrt(n: nat) -> nat
    decreases n,
{
    if n == 0 {
        0
    } else {
        let r = isqrt((n - 1) as nat);
        if (r + 1) * (r + 1) <= n {
            r + 1
        } else {
            r
        }
    }
}

/// `isqrt(n)` squared does not exceed `n`, and the next integer's square does.
pub proof fn lemma_isqrt_bounds(n: nat)
    ensures
        isqrt(n) * isqrt(n) <= n,
        n < (isqrt(n) + 1) * (isqrt(n) + 1),
    decreases n,
{
    if n == 0 {
        assert(isqrt(0) == 0);
        assert(0 * 0 == 0 && (0 + 1) * (0 + 1) == 1) by (nonlinear_arith);
    } else {
        lemma_isqrt_bounds((n - 1) as nat);
        let r = isqrt((n - 1) as nat);
        if (r + 1) * (r + 1) <= n {
            assert(isqrt(n) == r + 1);
            assert(n < (r + 1 + 1) * (r + 1 + 1)) by (nonlinear_arith)
                requires
                    n - 1 < (r + 1) * (r + 1),
            ;
        } else {
            assert(isqrt(n) == r);
        }
    }
}

/// Squaring is strictly monotone on the naturals.
pub proof fn lemma_square_monotone(a: int, b: int)
    requires
        0 <= a,
        0 <= b,
    ensures
        a < b <==> a * a < b * b,
        a <= b <==> a * a <= b * b,
{
    assert(a < b ==> a * a < b * b) by (nonlinear_arith)
        requires
            0 <= a,
            0 <= b,
    ;
    assert(b <= a ==> b * b <= a * a) by (nonlinear_arith)
        requires
            0 <= a,
            0 <= b,
    ;
    assert(a <= b ==> a * a <= b * b) by (nonlinear_arith)
        requires
            0 <= a,
            0 <= b,
    ;
    assert(b < a ==> b * b < a * a) by (nonlinear_arith)
        requires
            0 <= a,
            0 <= b,
    ;
}

/// Only `isqrt(n)` lies between the two bounds of `lemma_isqrt_bounds`.
pub proof fn lemma_isqrt_unique(n: nat, r: nat)
    requires
        r * r <= n,
        n < (r + 1) * (r + 1),
    ensures
        r == isqrt(n),
{
    lemma_isqrt_bounds(n);
    let s = isqrt(n);
    lemma_square_monotone(r as int, s as int + 1);
    lemma_square_monotone(s as int, r as int + 1);
}

/// Computes the integer square root by bisection.
pub fn isqrt_exec(n: u128) -> (r: u64)
    ensures
        r as nat == isqrt(n as nat),
{
    let mut lo: u128 = 0;
    let mut hi: u128 = 0x1_0000_0000_0000_0000;
    assert(hi * hi > n) by (nonlinear_arith)
        requires
            hi == 0x1_0000_0000_0000_0000,
            n <= 0xffff_ffff_ffff_ffff_ffff_ffff_ffff_ffff,
    ;
    while hi - lo > 1
        invariant
            lo < hi <= 0x1_0000_0000_0000_0000,
            lo * lo <= n,
            n < hi * hi,
        decreases hi - lo,
    {
        let mid: u128 = lo + (hi - lo) / 2;
        assert(mid * mid <= 0xffff_ffff_ffff_ffff * 0xffff_ffff_ffff_ffff) by (nonlinear_arith)
            requires
                0 <= mid <= 0xffff_ffff_ffff_ffff,
        ;
        if mid * mid <= n {
            lo = mid;
        } else {
            hi = mid;
        }
    }
    proof {
        lemma_isqrt_unique(n as nat, lo as nat);
    }
    lo as u64
}

/// Computes `div_round(a, b)`.
pub fn div_round_exec(a: i128, b: i128) -> (q: i128)
    requires
        0 < b <= 0x4000_0000_0000_0000_0000_0000_0000_0000,
        -0x4000_0000_0000_0000_0000_0000_0000_0000 <= a <= 0x4000_0000_0000_0000_0000_0000_0000_0000,
    ensures
        q == div_round(a as int, b as int),
        abs(q as int) <= abs(a as int),
{
    let m: u128 = if a >= 0 {
        a as u128
    } else {
        (-a) as u128
    };
    let d: u128 = b as u128;
    let t: u128 = (2 * m + d) / (2 * d);
    proof {
        lemma_div_round_magnitude(m as int, d as int);
    }
    if a >= 0 {
        t as i128
    } else {
        -(t as i128)
    }
}

/// Rounding a quotient never takes it past the dividend's magnitude.
pub proof fn lemma_div_round_magnitude(m: int, d: int)
    requires
        0 <= m,
        0 < d,
    ensures
        0 <= (2 * m + d) / (2 * d) <= m,
{
    let t = (2 * m + d) / (2 * d);
    assert(0 <= t && t <= m) by (nonlinear_arith)
        requires
            0 <= m,
            0 < d,
            t == (2 * m + d) / (2 * d),
    ;
}

/// Computes the product of two fixed-point numbers.
pub fn fixed_mul_exec(a: i64, b: i64) -> (q: i128)
    ensures
        q == fixed_mul(a as int, b as int),
        abs(q as int) <= abs(a as int * b as int),
{
    assert(-0x4000_0000_0000_0000_0000_0000_0000_0000 <= a * b
        <= 0x4000_0000_0000_0000_0000_0000_0000_0000) by (nonlinear_arith)
        requires
            -0x8000_0000_0000_0000 <= a <= 0x7fff_ffff_ffff_ffff,
            -0x8000_0000_0000_0000 <= b <= 0x7fff_ffff_ffff_ffff,
    ;
    div_round_exec(a as i128 * b as i128, SCALE as i128)
}

/// A rounded quotient, multiplied back, is at most half the divisor off the
/// dividend.
pub proof fn lemma_div_round_error(a: int, d: int)
    requires
        0 < d,
    ensures
        2 * abs(a - div_round(a, d) * d) <= d,
{
    let m = abs(a);
    let t = (2 * m + d) / (2 * d);
    assert(2 * (m - t * d) <= d && 2 * (t * d - m) <= d) by (nonlinear_arith)
        requires
            0 <= m,
            0 < d,
            t == (2 * m + d) / (2 * d),
    ;
    if a < 0 {
        assert((-t) * d == -(t * d)) by (nonlinear_arith);
    }
}

/// A multiple of the divisor is divided without rounding.
pub proof fn lemma_div_round_exact(q: int, d: int)
    requires
        0 < d,
    ensures
        div_round(q * d, d) == q,
{
    let m = abs(q);
    assert((2 * (m * d) + d) / (2 * d) == m) by (nonlinear_arith)
        requires
            0 <= m,
            0 < d,
    ;
    if q >= 0 {
        assert(q * d >= 0) by (nonlinear_arith)
            requires
                q >= 0,
                d > 0,
        ;
    } else {
        assert(q * d < 0 && -(q * d) == m * d) by (nonlinear_arith)
            requires
                q < 0,
                d > 0,
                m == -q,
        ;
    }
}

/// Rounded division is monotone in the dividend.
pub proof fn lemma_div_round_monotone(a: int, b: int, d: int)
    requires
        a <= b,
        0 < d,
    ensures
        div_round(a, d) <= div_round(b, d),
{
    if a >= 0 {
        assert((2 * a + d) / (2 * d) <= (2 * b + d) / (2 * d)) by (nonlinear_arith)
            requires
                0 <= a <= b,
                0 < d,
        ;
    } else if b < 0 {
        assert((2 * (-b) + d) / (2 * d) <= (2 * (-a) + d) / (2 * d)) by (nonlinear_arith)
            requires
                a <= b < 0,
                0 < d,
        ;
    } else {
        lemma_div_round_magnitude(-a, d);
        lemma_div_round_magnitude(b, d);
    }
}

/// Whether two fixed-point numbers differ by less than `EPSILON`.
pub fn are_equal(a: i64, b: i64) -> (r: bool)
    ensures
        r == are_equal_spec(a as int, b as int),
{
    let d: i128 = a as i128 - b as i128;
    -(EPSILON as i128) < d && d < EPSILON as i128
}

} // verus!

//! Points on the line through a segment: which of them the point-inside test
//! accepts.

use vstd::prelude::*;
use crate::fixed::{
    abs, isqrt, lemma_div_round_error, lemma_isqrt_bounds, lemma_square_monotone, EPSILON, SCALE,
};
use crate::segment::on_segment;
use crate::vector::{lemma_coordinate_within_length, Point};

verus! {

/// Whether `q * v == k * d`, coordinate by coordinate: `v` is the fraction
/// `k / q` of `d`.
pub open spec fn is_fraction_of(v: Point, k: int, q: int, d: Point) -> bool {
    q * v.x == k * d.x && q * v.y == k * d.y
}

/// The squared length of a fraction of a vector.
proof fn lemma_fraction_norm(v: Point, k: int, q: int, d: Point)
    requires
        is_fraction_of(v, k, q, d),
    ensures
        q * q * v.norm_squared() == k * k * d.norm_squared(),
{
    let (vx, vy, dx, dy) = (v.x, v.y, d.x, d.y);
    assert(q * q * (vx * vx + vy * vy) == k * k * (dx * dx + dy * dy)) by (nonlinear_arith)
        requires
            q * vx == k * dx,
            q * vy == k * dy,
    {
        assert((q * vx) * (q * vx) == (k * dx) * (k * dx));
        assert((q * vy) * (q * vy) == (k * dy) * (k * dy));
        assert(q * q * (vx * vx) == (q * vx) * (q * vx));
        assert(q * q * (vy * vy) == (q * vy) * (q * vy));
        assert(k * k * (dx * dx) == (k * dx) * (k * dx));
        assert(k * k * (dy * dy) == (k * dy) * (k * dy));
    }
    assert(vx * vx + vy * vy >= 0 && dx * dx + dy * dy >= 0) by (nonlinear_arith);
}

/// Of two naturals whose squares are bounded by products, the product is
/// bounded by the product of the bounds' roots.
proof fn lemma_cross_term(s: int, t: int, a2: int, b2: int, x: int, y: int)
    requires
        0 <= s,
        0 <= t,
        0 <= a2 <= x,
        0 <= b2 <= y,
        s * s == a2 * b2,
        t * t == x * y,
    ensures
        s <= t,
{
    assert(a2 * b2 <= x * y) by (nonlinear_arith)
        requires
            0 <= a2 <= x,
            0 <= b2 <= y,
    ;
    lemma_square_monotone(s, t);
}

/// As `lemma_cross_term`, with strict bounds.
proof fn lemma_cross_term_strict(s: int, t: int, a2: int, b2: int, x: int, y: int)
    requires
        0 <= s,
        0 <= t,
        0 <= x < a2,
        0 <= y < b2,
        s * s == a2 * b2,
        t * t == x * y,
    ensures
        t < s,
{
    assert(x * y < a2 * b2) by (nonlinear_arith)
        requires
            0 <= x < a2,
            0 <= y < b2,
    ;
    lemma_square_monotone(t, s);
}

/// The rounded-down roots of three naturals that are to one another as the
/// squares of `j`, `k` and `j + k` add up, give or take one.
proof fn lemma_roots_add_up(u: nat, w: nat, t: nat, d: nat, q: int, j: int, k: int)
    requires
        0 < q,
        0 <= j,
        0 <= k,
        q * q * u == j * j * d,
        q * q * w == k * k * d,
        q * q * t == (j + k) * (j + k) * d,
    ensures
        isqrt(u) + isqrt(w) <= isqrt(t) <= isqrt(u) + isqrt(w) + 1,
{
    let a = isqrt(u) as int;
    let b = isqrt(w) as int;
    let c = isqrt(t) as int;
    lemma_isqrt_bounds(u);
    lemma_isqrt_bounds(w);
    lemma_isqrt_bounds(t);
    let qq = q * q;
    assert(qq > 0) by (nonlinear_arith)
        requires
            q > 0,
            qq == q * q,
    ;
    let x = j * j * d;
    let y = k * k * d;
    let z = j * k * d;
    assert(0 <= x && 0 <= y && 0 <= z) by (nonlinear_arith)
        requires
            0 <= j,
            0 <= k,
            0 <= d,
            x == j * j * d,
            y == k * k * d,
            z == j * k * d,
    ;
    assert(z * z == x * y) by (nonlinear_arith)
        requires
            x == j * j * d,
            y == k * k * d,
            z == j * k * d,
    ;
    assert((j + k) * (j + k) * d == x + 2 * z + y) by (nonlinear_arith)
        requires
            x == j * j * d,
            y == k * k * d,
            z == j * k * d,
    ;
    // The sum of the roots is no more than the root of the whole.
    let a2 = qq * (a * a);
    let b2 = qq * (b * b);
    let s = qq * (a * b);
    assert(0 <= a2 <= x) by (nonlinear_arith)
        requires
            a2 == qq * (a * a),
            0 <= a * a <= u,
            qq > 0,
            qq * u == x,
    ;
    assert(0 <= b2 <= y) by (nonlinear_arith)
        requires
            b2 == qq * (b * b),
            0 <= b * b <= w,
            qq > 0,
            qq * w == y,
    ;
    assert(0 <= s && s * s == a2 * b2) by (nonlinear_arith)
        requires
            s == qq * (a * b),
            a2 == qq * (a * a),
            b2 == qq * (b * b),
            0 <= a,
            0 <= b,
            qq > 0,
    ;
    lemma_cross_term(s, z, a2, b2, x, y);
    assert(qq * ((a + b) * (a + b)) == a2 + 2 * s + b2) by (nonlinear_arith)
        requires
            s == qq * (a * b),
            a2 == qq * (a * a),
            b2 == qq * (b * b),
    ;
    assert((a + b) * (a + b) <= t) by (nonlinear_arith)
        requires
            qq * ((a + b) * (a + b)) <= qq * t,
            qq > 0,
    ;
    lemma_square_monotone(a + b, c + 1);
    // The root of the whole is less than the sum of the next roots.
    let a1 = a + 1;
    let b1 = b + 1;
    let a3 = qq * (a1 * a1);
    let b3 = qq * (b1 * b1);
    let r = qq * (a1 * b1);
    assert(x < a3) by (nonlinear_arith)
        requires
            a3 == qq * (a1 * a1),
            u < a1 * a1,
            qq > 0,
            qq * u == x,
    ;
    assert(y < b3) by (nonlinear_arith)
        requires
            b3 == qq * (b1 * b1),
            w < b1 * b1,
            qq > 0,
            qq * w == y,
    ;
    assert(0 <= r && r * r == a3 * b3) by (nonlinear_arith)
        requires
            r == qq * (a1 * b1),
            a3 == qq * (a1 * a1),
            b3 == qq * (b1 * b1),
            0 < a1,
            0 < b1,
            qq > 0,
    ;
    lemma_cross_term_strict(r, z, a3, b3, x, y);
    assert(qq * ((a1 + b1) * (a1 + b1)) == a3 + 2 * r + b3) by (nonlinear_arith)
        requires
            r == qq * (a1 * b1),
            a3 == qq * (a1 * a1),
            b3 == qq * (b1 * b1),
    ;
    assert(t < (a1 + b1) * (a1 + b1)) by (nonlinear_arith)
        requires
            qq * t < qq * ((a1 + b1) * (a1 + b1)),
            qq > 0,
    ;
    lemma_square_monotone(c, a1 + b1);
}

/// Two vectors that point the same way are together as long as their sum,
/// give or take one unit of rounding: where `u` and `w` are the fractions
/// `j / q` and `k / q` of one vector, neither fraction negative.
pub proof fn lemma_parallel_lengths(u: Point, w: Point, d: Point, q: int, j: int, k: int)
    requires
        0 < q,
        0 <= j,
        0 <= k,
        is_fraction_of(u, j, q, d),
        is_fraction_of(w, k, q, d),
    ensures
        u.length() + w.length() <= u.add(w).length() <= u.length() + w.length() + 1,
{
    let sum = u.add(w);
    assert(is_fraction_of(sum, j + k, q, d)) by (nonlinear_arith)
        requires
            is_fraction_of(u, j, q, d),
            is_fraction_of(w, k, q, d),
            sum.x == u.x + w.x,
            sum.y == u.y + w.y,
    ;
    lemma_fraction_norm(u, j, q, d);
    lemma_fraction_norm(w, k, q, d);
    lemma_fraction_norm(sum, j + k, q, d);
    lemma_roots_add_up(
        u.norm_squared(),
        w.norm_squared(),
        sum.norm_squared(),
        d.norm_squared(),
        q,
        j,
        k,
    );
}

/// A vector and its opposite are equally long.
pub proof fn lemma_length_symmetric(a: Point, b: Point)
    ensures
        a.subtract(b).length() == b.subtract(a).length(),
{
    let (x, y) = (a.x - b.x, a.y - b.y);
    assert(x * x == (-x) * (-x) && y * y == (-y) * (-y)) by (nonlinear_arith);
}

/// Every point of a segment lies on it: the point that is the fraction
/// `num / den` of the way from `start` to `end`, the fraction between 0 and
/// 1, passes the test.
pub proof fn law_point_of_segment_inside(start: Point, end: Point, p: Point, num: int, den: int)
    requires
        0 < den,
        0 <= num <= den,
        is_fraction_of(p.subtract(start), num, den, end.subtract(start)),
    ensures
        on_segment(start, end, p),
{
    let d = end.subtract(start);
    let u = p.subtract(start);
    let w = end.subtract(p);
    assert(is_fraction_of(w, den - num, den, d)) by (nonlinear_arith)
        requires
            is_fraction_of(u, num, den, d),
            w.x == d.x - u.x,
            w.y == d.y - u.y,
    ;
    lemma_parallel_lengths(u, w, d, den, num, den - num);
    assert(u.add(w) == d);
}

/// A point of the line beyond an end of the segment does not lie on it, once
/// it is half the tolerance away from that end: the point that is the
/// fraction `num / den` of the way from `start` to `end`, the fraction above
/// 1 or below 0, fails the test.
pub proof fn law_point_beyond_segment_outside(
    start: Point,
    end: Point,
    p: Point,
    num: int,
    den: int,
)
    requires
        0 < den,
        is_fraction_of(p.subtract(start), num, den, end.subtract(start)),
        (num > den && 2 * p.subtract(end).length() >= EPSILON) || (num < 0 && 2 * p.subtract(
            start,
        ).length() >= EPSILON),
    ensures
        !on_segment(start, end, p),
{
    let d = end.subtract(start);
    lemma_length_symmetric(p, end);
    lemma_length_symmetric(p, start);
    if num > den {
        let w = p.subtract(end);
        let whole = p.subtract(start);
        assert(is_fraction_of(w, num - den, den, d)) by (nonlinear_arith)
            requires
                is_fraction_of(whole, num, den, d),
                w.x == whole.x - d.x,
                w.y == whole.y - d.y,
        ;
        assert(is_fraction_of(d, den, den, d));
        lemma_parallel_lengths(d, w, d, den, den, num - den);
        assert(d.add(w) == whole);
    } else {
        let u = start.subtract(p);
        let whole = end.subtract(p);
        assert(is_fraction_of(u, -num, den, d)) by (nonlinear_arith)
            requires
                is_fraction_of(p.subtract(start), num, den, d),
                u.x == -p.subtract(start).x,
                u.y == -p.subtract(start).y,
        ;
        assert(is_fraction_of(d, den, den, d));
        lemma_parallel_lengths(u, d, d, den, -num, den);
        assert(u.add(d) == whole);
    }
}

/// Both ends of a segment lie on it.
pub proof fn law_ends_of_segment_inside(start: Point, end: Point)
    ensures
        on_segment(start, end, start),
        on_segment(start, end, end),
{
    let d = end.subtract(start);
    assert(is_fraction_of(start.subtract(start), 0, 1, d)) by (nonlinear_arith)
        requires
            start.subtract(start).x == 0,
            start.subtract(start).y == 0,
    ;
    law_point_of_segment_inside(start, end, start, 0, 1);
    assert(is_fraction_of(end.subtract(start), 1, 1, d));
    law_point_of_segment_inside(start, end, end, 1, 1);
}

/// The product of two sums of two squares is the sum of the squares of the
/// dot product and of the cross product.
proof fn lemma_lagrange_identity(ax: int, ay: int, bx: int, by: int)
    ensures
        (ax * ax + ay * ay) * (bx * bx + by * by) == (ax * bx + ay * by) * (ax * bx + ay * by) + (ax
            * by - ay * bx) * (ax * by - ay * bx),
{
    let p = ax * bx;
    let q = ay * by;
    let r = ax * by;
    let s = ay * bx;
    let (a2, b2, c2, d2) = (ax * ax, ay * ay, bx * bx, by * by);
    assert(a2 * c2 == p * p) by (nonlinear_arith)
        requires
            a2 == ax * ax,
            c2 == bx * bx,
            p == ax * bx,
    ;
    assert(b2 * d2 == q * q) by (nonlinear_arith)
        requires
            b2 == ay * ay,
            d2 == by * by,
            q == ay * by,
    ;
    assert(a2 * d2 == r * r) by (nonlinear_arith)
        requires
            a2 == ax * ax,
            d2 == by * by,
            r == ax * by,
    ;
    assert(b2 * c2 == s * s) by (nonlinear_arith)
        requires
            b2 == ay * ay,
            c2 == bx * bx,
            s == ay * bx,
    ;
    assert(p * q == r * s) by (nonlinear_arith)
        requires
            p == ax * bx,
            q == ay * by,
            r == ax * by,
            s == ay * bx,
    ;
    assert((a2 + b2) * (c2 + d2) == a2 * c2 + a2 * d2 + b2 * c2 + b2 * d2) by (nonlinear_arith);
    assert((p + q) * (p + q) == p * p + 2 * (p * q) + q * q) by (nonlinear_arith);
    assert((r - s) * (r - s) == r * r - 2 * (r * s) + s * s) by (nonlinear_arith);
}

/// The triangle inequality for lengths rounded down: a sum of two vectors is
/// no longer than the two together, give or take one unit of rounding.
pub proof fn lemma_triangle(a: Point, b: Point)
    ensures
        a.add(b).length() <= a.length() + b.length() + 1,
{
    let (ax, ay, bx, by) = (a.x, a.y, b.x, b.y);
    let na = a.norm_squared() as int;
    let nb = b.norm_squared() as int;
    let sum = a.add(b);
    let ns = sum.norm_squared() as int;
    let dot = ax * bx + ay * by;
    let cross = ax * by - ay * bx;
    assert(ax * ax + ay * ay >= 0 && bx * bx + by * by >= 0 && (ax + bx) * (ax + bx) + (ay + by)
        * (ay + by) >= 0) by (nonlinear_arith);
    lemma_lagrange_identity(ax, ay, bx, by);
    assert(cross * cross >= 0) by (nonlinear_arith);
    assert(ns == na + 2 * dot + nb) by (nonlinear_arith)
        requires
            ns == (ax + bx) * (ax + bx) + (ay + by) * (ay + by),
            na == ax * ax + ay * ay,
            nb == bx * bx + by * by,
            dot == ax * bx + ay * by,
    ;
    let a1 = a.length() + 1;
    let b1 = b.length() + 1;
    lemma_isqrt_bounds(a.norm_squared());
    lemma_isqrt_bounds(b.norm_squared());
    lemma_isqrt_bounds(sum.norm_squared());
    let bound = a1 * b1;
    assert(0 < bound && bound * bound == (a1 * a1) * (b1 * b1)) by (nonlinear_arith)
        requires
            bound == a1 * b1,
            0 < a1,
            0 < b1,
    ;
    if dot > 0 {
        assert(na * nb < (a1 * a1) * (b1 * b1)) by (nonlinear_arith)
            requires
                0 <= na < a1 * a1,
                0 <= nb < b1 * b1,
        ;
        lemma_square_monotone(dot, bound);
    }
    assert(dot < bound);
    assert((a1 + b1) * (a1 + b1) == a1 * a1 + 2 * bound + b1 * b1) by (nonlinear_arith)
        requires
            bound == a1 * b1,
    ;
    lemma_square_monotone(sum.length(), a1 + b1);
}

/// A whole multiple of a vector is as many times as long, give or take the
/// rounding of the one length.
pub proof fn lemma_multiple_length(v: Point, k: int)
    requires
        0 <= k,
    ensures
        k * v.length() <= (Point { x: k * v.x, y: k * v.y }).length() <= k * v.length() + k,
{
    let kv = Point { x: k * v.x, y: k * v.y };
    let n = v.norm_squared() as int;
    let m = kv.norm_squared() as int;
    let len = v.length();
    let (x, y) = (v.x, v.y);
    assert(x * x + y * y >= 0 && (k * x) * (k * x) + (k * y) * (k * y) >= 0) by (nonlinear_arith);
    assert(m == k * k * n) by (nonlinear_arith)
        requires
            m == (k * x) * (k * x) + (k * y) * (k * y),
            n == x * x + y * y,
    ;
    lemma_isqrt_bounds(v.norm_squared());
    lemma_isqrt_bounds(kv.norm_squared());
    let low = k * len;
    let high = k * (len + 1);
    assert(0 <= low && low * low <= m) by (nonlinear_arith)
        requires
            m == k * k * n,
            0 <= k,
            0 <= len,
            len * len <= n,
            low == k * len,
    ;
    lemma_square_monotone(low, kv.length() + 1);
    if k > 0 {
        assert(0 <= high && m < high * high) by (nonlinear_arith)
            requires
                m == k * k * n,
                0 < k,
                0 <= len,
                n < (len + 1) * (len + 1),
                high == k * (len + 1),
        ;
        lemma_square_monotone(kv.length(), high);
        assert(high == k * len + k) by (nonlinear_arith)
            requires
                high == k * (len + 1),
        ;
    } else {
        assert(k * x == 0 && k * y == 0 && k * len == 0) by (nonlinear_arith)
            requires
                k == 0,
        ;
        assert(m == 0);
        assert(kv.length() == 0);
    }
}

/// How much longer than the fraction `t` of `d` the scaled vector can be:
/// `SCALE` times its length is at most `t` times the length of `d`, plus what
/// the rounding of the lengths and of the coordinates can add.
proof fn lemma_scaled_not_longer(d: Point, t: int)
    requires
        0 <= t,
    ensures
        SCALE * d.scale_by(t).length() <= t * d.length() + t + SCALE + 1,
{
    let u = d.scale_by(t);
    let su = Point { x: SCALE * u.x, y: SCALE * u.y };
    let td = Point { x: t * d.x, y: t * d.y };
    let e = su.subtract(td);
    lemma_div_round_error(d.x * t, SCALE as int);
    lemma_div_round_error(d.y * t, SCALE as int);
    assert(d.x * t == t * d.x && d.y * t == t * d.y) by (nonlinear_arith);
    assert(u.x * SCALE == SCALE * u.x && u.y * SCALE == SCALE * u.y) by (nonlinear_arith);
    assert(2 * abs(e.x) <= SCALE && 2 * abs(e.y) <= SCALE);
    lemma_coordinate_within_length(e);
    lemma_multiple_length(u, SCALE as int);
    lemma_multiple_length(d, t);
    assert(td.add(e) == su);
    lemma_triangle(td, e);
}

/// As `lemma_scaled_not_longer`, the other way round: how much shorter than
/// the fraction `t` of `d` the scaled vector can be.
proof fn lemma_scaled_not_shorter(d: Point, t: int)
    requires
        0 <= t,
    ensures
        t * d.length() <= SCALE * d.scale_by(t).length() + 2 * SCALE + 1,
{
    let u = d.scale_by(t);
    let su = Point { x: SCALE * u.x, y: SCALE * u.y };
    let td = Point { x: t * d.x, y: t * d.y };
    let e = td.subtract(su);
    lemma_div_round_error(d.x * t, SCALE as int);
    lemma_div_round_error(d.y * t, SCALE as int);
    assert(d.x * t == t * d.x && d.y * t == t * d.y) by (nonlinear_arith);
    assert(u.x * SCALE == SCALE * u.x && u.y * SCALE == SCALE * u.y) by (nonlinear_arith);
    assert(2 * abs(e.x) <= SCALE && 2 * abs(e.y) <= SCALE);
    lemma_coordinate_within_length(e);
    lemma_multiple_length(u, SCALE as int);
    lemma_multiple_length(d, t);
    assert(su.add(e) == td);
    lemma_triangle(su, e);
}

/// What is left of a vector `d` when the part scaled by `t` is taken off is
/// the part scaled by one minus `t`, but for the rounding; its length is
/// bounded as in `lemma_scaled_not_longer`.
proof fn lemma_remainder_not_longer(d: Point, t: int)
    requires
        0 <= t <= SCALE,
    ensures
        SCALE * d.subtract(d.scale_by(t)).length() <= (SCALE - t) * d.length() + (SCALE - t)
            + SCALE + 1,
{
    let u = d.scale_by(t);
    let w = d.subtract(u);
    let sw = Point { x: SCALE * w.x, y: SCALE * w.y };
    let rd = Point { x: (SCALE - t) * d.x, y: (SCALE - t) * d.y };
    let e = sw.subtract(rd);
    lemma_div_round_error(d.x * t, SCALE as int);
    lemma_div_round_error(d.y * t, SCALE as int);
    assert(e.x == d.x * t - u.x * SCALE && e.y == d.y * t - u.y * SCALE) by (nonlinear_arith)
        requires
            e.x == SCALE * (d.x - u.x) - (SCALE - t) * d.x,
            e.y == SCALE * (d.y - u.y) - (SCALE - t) * d.y,
    ;
    assert(2 * abs(e.x) <= SCALE && 2 * abs(e.y) <= SCALE);
    lemma_coordinate_within_length(e);
    lemma_multiple_length(w, SCALE as int);
    lemma_multiple_length(d, SCALE - t);
    assert(rd.add(e) == sw);
    lemma_triangle(rd, e);
}

/// Every point between the ends of a segment lies on it, as the library
/// computes it: the point that is the fixed-point fraction `t` of the way
/// from `start` to `end`, `t` between zero and one whole, passes the test,
/// whatever the rounding of its coordinates.
pub proof fn law_interpolated_point_inside(start: Point, end: Point, t: int)
    requires
        0 <= t <= SCALE,
    ensures
        on_segment(start, end, start.add(end.subtract(start).scale_by(t))),
{
    let d = end.subtract(start);
    let u = d.scale_by(t);
    let p = start.add(u);
    let w = d.subtract(u);
    assert(p.subtract(start) == u);
    assert(end.subtract(p) == w);
    assert(u.add(w) == d);
    lemma_triangle(u, w);
    lemma_scaled_not_longer(d, t);
    lemma_remainder_not_longer(d, t);
    let (a, b, c) = (u.length(), w.length(), d.length());
    assert(a + b <= c + 3) by (nonlinear_arith)
        requires
            SCALE * a <= t * c + t + SCALE + 1,
            SCALE * b <= (SCALE - t) * c + (SCALE - t) + SCALE + 1,
    ;
}

/// A point of the line beyond the end of a segment does not lie on it, as
/// the library computes it: the point that is the fixed-point fraction `t`
/// of the way from `start` to `end`, `t` above one whole, fails the test once
/// it overshoots the end by half the tolerance and the two units that
/// rounding can take.
pub proof fn law_extrapolated_point_outside(start: Point, end: Point, t: int)
    requires
        SCALE < t,
        2 * (t - SCALE) * end.subtract(start).length() >= SCALE * (EPSILON + 4),
    ensures
        !on_segment(start, end, start.add(end.subtract(start).scale_by(t))),
{
    let d = end.subtract(start);
    let u = d.scale_by(t);
    let p = start.add(u);
    let over = u.subtract(d);
    assert(p.subtract(start) == u);
    assert(p.subtract(end) == over);
    lemma_length_symmetric(p, end);
    lemma_scaled_not_shorter(d, t);
    lemma_overshoot_not_shorter(d, t);
    let (a, b, c) = (u.length(), over.length(), d.length());
    assert(a + b - c >= EPSILON) by (nonlinear_arith)
        requires
            t * c <= SCALE * a + 2 * SCALE + 1,
            (t - SCALE) * c <= SCALE * b + 2 * SCALE + 1,
            2 * (t - SCALE) * c >= SCALE * (EPSILON + 4),
    ;
}

/// How much shorter than the fraction `t` less one whole of `d` the
/// overshoot of the scaled vector can be.
proof fn lemma_overshoot_not_shorter(d: Point, t: int)
    requires
        SCALE <= t,
    ensures
        (t - SCALE) * d.length() <= SCALE * d.scale_by(t).subtract(d).length() + 2 * SCALE + 1,
{
    let u = d.scale_by(t);
    let over = u.subtract(d);
    let so = Point { x: SCALE * over.x, y: SCALE * over.y };
    let rd = Point { x: (t - SCALE) * d.x, y: (t - SCALE) * d.y };
    let e = rd.subtract(so);
    lemma_div_round_error(d.x * t, SCALE as int);
    lemma_div_round_error(d.y * t, SCALE as int);
    assert(e.x == d.x * t - u.x * SCALE && e.y == d.y * t - u.y * SCALE) by (nonlinear_arith)
        requires
            e.x == (t - SCALE) * d.x - SCALE * (u.x - d.x),
            e.y == (t - SCALE) * d.y - SCALE * (u.y - d.y),
    ;
    assert(2 * abs(e.x) <= SCALE && 2 * abs(e.y) <= SCALE);
    lemma_coordinate_within_length(e);
    lemma_multiple_length(over, SCALE as int);
    lemma_multiple_length(d, t - SCALE);
    assert(so.add(e) == rd);
    lemma_triangle(so, e);
}

/// A vector and its opposite are equally long.
proof fn lemma_opposite_length(v: Point)
    ensures
        (Point { x: -v.x, y: -v.y }).length() == v.length(),
{
    let (x, y) = (v.x, v.y);
    assert(x * x == (-x) * (-x) && y * y == (-y) * (-y)) by (nonlinear_arith);
}

/// How short a vector scaled by a negative `t` can be.
proof fn lemma_reversed_not_shorter(d: Point, t: int)
    requires
        t <= 0,
    ensures
        (-t) * d.length() <= SCALE * d.scale_by(t).length() + 2 * SCALE + 1,
{
    let u = d.scale_by(t);
    let back = Point { x: -d.x, y: -d.y };
    assert(back.x * (-t) == d.x * t && back.y * (-t) == d.y * t) by (nonlinear_arith)
        requires
            back.x == -d.x,
            back.y == -d.y,
    ;
    assert(back.scale_by(-t) == u);
    lemma_opposite_length(d);
    lemma_scaled_not_shorter(back, -t);
}

/// How short the way from the scaled vector to the end of `d` can be, for a
/// negative `t`.
proof fn lemma_undershoot_not_shorter(d: Point, t: int)
    requires
        t <= 0,
    ensures
        (SCALE - t) * d.length() <= SCALE * d.subtract(d.scale_by(t)).length() + 2 * SCALE + 1,
{
    let u = d.scale_by(t);
    let w = d.subtract(u);
    let sw = Point { x: SCALE * w.x, y: SCALE * w.y };
    let rd = Point { x: (SCALE - t) * d.x, y: (SCALE - t) * d.y };
    let e = rd.subtract(sw);
    lemma_div_round_error(d.x * t, SCALE as int);
    lemma_div_round_error(d.y * t, SCALE as int);
    assert(e.x == u.x * SCALE - d.x * t && e.y == u.y * SCALE - d.y * t) by (nonlinear_arith)
        requires
            e.x == (SCALE - t) * d.x - SCALE * (d.x - u.x),
            e.y == (SCALE - t) * d.y - SCALE * (d.y - u.y),
    ;
    assert(2 * abs(e.x) <= SCALE && 2 * abs(e.y) <= SCALE);
    lemma_coordinate_within_length(e);
    lemma_multiple_length(w, SCALE as int);
    lemma_multiple_length(d, SCALE - t);
    assert(sw.add(e) == rd);
    lemma_triangle(sw, e);
}

/// A point of the line before the start of a segment does not lie on it, as
/// the library computes it: the point that is the fixed-point fraction `t`
/// of the way from `start` to `end`, `t` below zero, fails the test once it
/// falls short of the start by half the tolerance and the two units that
/// rounding can take.
pub proof fn law_point_before_start_outside(start: Point, end: Point, t: int)
    requires
        t < 0,
        2 * (-t) * end.subtract(start).length() >= SCALE * (EPSILON + 4),
    ensures
        !on_segment(start, end, start.add(end.subtract(start).scale_by(t))),
{
    let d = end.subtract(start);
    let u = d.scale_by(t);
    let p = start.add(u);
    let w = d.subtract(u);
    assert(p.subtract(start) == u);
    assert(end.subtract(p) == w);
    lemma_reversed_not_shorter(d, t);
    lemma_undershoot_not_shorter(d, t);
    let (a, b, c) = (u.length(), w.length(), d.length());
    assert(a + b - c >= EPSILON) by (nonlinear_arith)
        requires
            (-t) * c <= SCALE * a + 2 * SCALE + 1,
            (SCALE - t) * c <= SCALE * b + 2 * SCALE + 1,
            2 * (-t) * c >= SCALE * (EPSILON + 4),
    ;
}

} // verus!

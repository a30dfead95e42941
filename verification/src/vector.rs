//! Two-dimensional vectors in fixed-point coordinates.

use vstd::prelude::*;
use crate::error::GameError;
use crate::fixed::{
    abs, are_equal, are_equal_spec, div_round, div_round_exec, fixed_mul, fixed_mul_exec, isqrt,
    isqrt_exec,
    lemma_isqrt_bounds, lemma_square_monotone, COORD_LIMIT, EPSILON, LENGTH_LIMIT, REACH_LIMIT,
    SCALE,
};
use crate::laws::{law_normalize_round_trip, law_normalize_unit_length};

verus! {

/// The mathematical value of a vector: a pair of unbounded fixed-point
/// coordinates. Every contract of the library is stated over this type.
pub struct Point {
    pub x: int,
    pub y: int,
}

impl Point {
    /// Componentwise sum.
    pub open spec fn add(self, other: Point) -> Point {
        Point { x: self.x + other.x, y: self.y + other.y }
    }

    /// Componentwise difference.
    pub open spec fn subtract(self, other: Point) -> Point {
        Point { x: self.x - other.x, y: self.y - other.y }
    }

    /// Both coordinates multiplied by the fixed-point number `factor`.
    pub open spec fn scale_by(self, factor: int) -> Point {
        Point { x: fixed_mul(self.x, factor), y: fixed_mul(self.y, factor) }
    }

    /// The square of the Euclidean length, in squared units.
    pub open spec fn norm_squared(self) -> nat {
        (self.x * self.x + self.y * self.y) as nat
    }

    /// The Euclidean length, rounded down to a whole unit.
    pub open spec fn length(self) -> int {
        isqrt(self.norm_squared()) as int
    }

    /// The vector of length one (`SCALE` units) in the same direction. Meant
    /// for a vector that is not degenerate.
    pub open spec fn normalize(self) -> Point {
        Point {
            x: div_round(self.x * SCALE, self.length()),
            y: div_round(self.y * SCALE, self.length()),
        }
    }

    /// Whether a vector is too short to be normalized.
    pub open spec fn is_degenerate(self) -> bool {
        self.length() < EPSILON
    }

    /// Equality under the tolerance, coordinate by coordinate.
    pub open spec fn equal_to(self, other: Point) -> bool {
        are_equal_spec(self.x, other.x) && are_equal_spec(self.y, other.y)
    }

    /// Whether the two vectors cancel out under the tolerance.
    pub open spec fn is_opposite(self, other: Point) -> bool {
        are_equal_spec(self.x + other.x, 0) && are_equal_spec(self.y + other.y, 0)
    }

    /// Whether no coordinate exceeds `COORD_LIMIT` in magnitude: where the
    /// snake may be. The difference of two such points can be normalized.
    pub open spec fn in_range(self) -> bool {
        -COORD_LIMIT <= self.x <= COORD_LIMIT && -COORD_LIMIT <= self.y <= COORD_LIMIT
    }

    /// Whether no coordinate exceeds `REACH_LIMIT` in magnitude. The difference
    /// of two such points, and its length, fit the machine representation.
    pub open spec fn in_reach(self) -> bool {
        -REACH_LIMIT <= self.x <= REACH_LIMIT && -REACH_LIMIT <= self.y <= REACH_LIMIT
    }

    /// Whether both coordinates fit the machine representation.
    pub open spec fn representable(self) -> bool {
        i64::MIN <= self.x <= i64::MAX && i64::MIN <= self.y <= i64::MAX
    }
}

/// A two-dimensional vector. Its coordinates count millionths of a cell.
#[derive(Clone, Copy, Debug, PartialEq, Eq, Structural)]
pub struct Vector {
    pub x: i64,
    pub y: i64,
}

impl View for Vector {
    type V = Point;

    open spec fn view(&self) -> Point {
        Point { x: self.x as int, y: self.y as int }
    }
}

/// No coordinate is longer than the vector.
pub proof fn lemma_coordinate_within_length(p: Point)
    ensures
        abs(p.x) <= p.length(),
        abs(p.y) <= p.length(),
        p.length() <= abs(p.x) + abs(p.y),
{
    let n = p.norm_squared();
    let r = p.length();
    lemma_isqrt_bounds(n);
    assert(p.x * p.x == abs(p.x) * abs(p.x)) by (nonlinear_arith);
    assert(p.y * p.y == abs(p.y) * abs(p.y)) by (nonlinear_arith);
    assert(0 <= abs(p.x) * abs(p.x) && 0 <= abs(p.y) * abs(p.y)) by (nonlinear_arith);
    lemma_square_monotone(abs(p.x), r + 1);
    lemma_square_monotone(abs(p.y), r + 1);
    let s = abs(p.x) + abs(p.y);
    assert(s * s >= abs(p.x) * abs(p.x) + abs(p.y) * abs(p.y)) by (nonlinear_arith)
        requires
            s == abs(p.x) + abs(p.y),
            0 <= abs(p.x),
            0 <= abs(p.y),
    ;
    lemma_square_monotone(r, s);
}

/// The length of a vector along one axis is the magnitude of its coordinate.
pub proof fn lemma_axis_length(p: Point)
    requires
        p.x == 0 || p.y == 0,
    ensures
        p.length() == abs(p.x) + abs(p.y),
{
    lemma_coordinate_within_length(p);
}

/// The difference of two points in reach is representable, and so is its
/// length.
pub proof fn lemma_difference_in_reach(a: Point, b: Point)
    requires
        a.in_reach(),
        b.in_reach(),
    ensures
        b.subtract(a).representable(),
        0 <= b.subtract(a).length() <= 4 * REACH_LIMIT,
{
    lemma_coordinate_within_length(b.subtract(a));
}

/// The difference of two points in range is short enough to be normalized.
pub proof fn lemma_difference_in_range(a: Point, b: Point)
    requires
        a.in_range(),
        b.in_range(),
    ensures
        a.in_reach(),
        b.in_reach(),
        b.subtract(a).representable(),
        0 <= b.subtract(a).length() <= LENGTH_LIMIT,
{
    lemma_coordinate_within_length(b.subtract(a));
}

impl Vector {
    /// The vector with the given coordinates.
    pub fn new(x: i64, y: i64) -> (v: Vector)
        ensures
            v.x == x,
            v.y == y,
    {
        Vector { x, y }
    }

    /// The sum of two vectors.
    pub fn add(&self, other: &Vector) -> (v: Vector)
        requires
            self@.add(other@).representable(),
        ensures
            v@ == self@.add(other@),
    {
        Vector { x: self.x + other.x, y: self.y + other.y }
    }

    /// The difference of two vectors.
    pub fn subtract(&self, other: &Vector) -> (v: Vector)
        requires
            self@.subtract(other@).representable(),
        ensures
            v@ == self@.subtract(other@),
    {
        Vector { x: self.x - other.x, y: self.y - other.y }
    }

    /// The vector scaled by the fixed-point number `factor`, each coordinate
    /// rounded to the nearest unit.
    pub fn scale_by(&self, factor: i64) -> (v: Vector)
        requires
            self@.scale_by(factor as int).representable(),
        ensures
            v@ == self@.scale_by(factor as int),
    {
        let x: i128 = fixed_mul_exec(self.x, factor);
        let y: i128 = fixed_mul_exec(self.y, factor);
        Vector { x: x as i64, y: y as i64 }
    }

    /// The Euclidean length, rounded down to a whole unit.
    pub fn length(&self) -> (len: i64)
        requires
            self@.length() <= i64::MAX,
        ensures
            len == self@.length(),
    {
        let ax: u128 = magnitude(self.x);
        let ay: u128 = magnitude(self.y);
        assert(ax * ax <= 0x8000_0000_0000_0000 * 0x8000_0000_0000_0000) by (nonlinear_arith)
            requires
                0 <= ax <= 0x8000_0000_0000_0000,
        ;
        assert(ay * ay <= 0x8000_0000_0000_0000 * 0x8000_0000_0000_0000) by (nonlinear_arith)
            requires
                0 <= ay <= 0x8000_0000_0000_0000,
        ;
        assert(ax * ax == self.x * self.x) by (nonlinear_arith)
            requires
                ax == abs(self.x as int),
        ;
        assert(ay * ay == self.y * self.y) by (nonlinear_arith)
            requires
                ay == abs(self.y as int),
        ;
        let r: u64 = isqrt_exec(ax * ax + ay * ay);
        r as i64
    }

    /// The vector of length one in the same direction, each coordinate rounded
    /// to the nearest unit. A vector shorter than the tolerance has no
    /// direction to speak of and is refused. The vector is to be no longer
    /// than `LENGTH_LIMIT`: up to there the result scaled by the length is
    /// the vector again, under the tolerance.
    pub fn normalize(&self) -> (res: Result<Vector, GameError>)
        requires
            self@.length() <= LENGTH_LIMIT,
        ensures
            self@.is_degenerate() <==> res == Err::<Vector, GameError>(GameError::DegenerateVector),
            !self@.is_degenerate() ==> res.is_ok() && res.unwrap()@ == self@.normalize(),
            res.is_ok() ==> are_equal_spec(res.unwrap()@.length(), SCALE as int),
            res.is_ok() ==> res.unwrap()@.scale_by(self@.length()).equal_to(self@),
    {
        let len: i64 = self.length();
        if len < EPSILON {
            return Err(GameError::DegenerateVector);
        }
        proof {
            lemma_coordinate_within_length(self@);
            lemma_normalize_bounded(self@);
            law_normalize_unit_length(self@);
            law_normalize_round_trip(self@);
        }
        let x: i128 = div_round_exec(self.x as i128 * SCALE as i128, len as i128);
        let y: i128 = div_round_exec(self.y as i128 * SCALE as i128, len as i128);
        Ok(Vector { x: x as i64, y: y as i64 })
    }

    /// Whether the two vectors are equal under the tolerance.
    pub fn equal_to(&self, other: &Vector) -> (r: bool)
        ensures
            r == self@.equal_to(other@),
    {
        are_equal(self.x, other.x) && are_equal(self.y, other.y)
    }

    /// Whether the two vectors cancel out under the tolerance.
    pub fn is_opposite(&self, other: &Vector) -> (r: bool)
        ensures
            r == self@.is_opposite(other@),
    {
        let sx: i128 = self.x as i128 + other.x as i128;
        let sy: i128 = self.y as i128 + other.y as i128;
        let eps: i128 = EPSILON as i128;
        -eps < sx && sx < eps && -eps < sy && sy < eps
    }
}

/// A normalized vector has no coordinate beyond one whole.
pub proof fn lemma_normalize_bounded(p: Point)
    requires
        p.length() > 0,
    ensures
        abs(p.normalize().x) <= SCALE,
        abs(p.normalize().y) <= SCALE,
{
    lemma_coordinate_within_length(p);
    lemma_unit_coordinate_bounded(p.x, p.length());
    lemma_unit_coordinate_bounded(p.y, p.length());
}

/// A coordinate divided by a length that is no shorter gives at most one
/// whole.
pub proof fn lemma_unit_coordinate_bounded(c: int, len: int)
    requires
        0 < len,
        abs(c) <= len,
    ensures
        abs(div_round(c * SCALE, len)) <= SCALE,
{
    let m = abs(c) * SCALE;
    let t = (2 * m + len) / (2 * len);
    assert(0 <= t <= SCALE) by (nonlinear_arith)
        requires
            0 <= m <= len * SCALE,
            0 < len,
            t == (2 * m + len) / (2 * len),
    {
        assert(2 * m + len < (SCALE + 1) * (2 * len));
    }
    if c >= 0 {
        assert(c * SCALE == m);
    } else {
        assert(-(c * SCALE) == m) by (nonlinear_arith)
            requires
                m == (-c) * SCALE,
        ;
    }
}

/// The magnitude of a coordinate.
fn magnitude(c: i64) -> (m: u128)
    ensures
        m == abs(c as int),
{
    if c >= 0 {
        c as u128
    } else {
        (-(c as i128)) as u128
    }
}

} // verus!

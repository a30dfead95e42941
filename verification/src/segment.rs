//! Segments between two points, and the test whether a point lies on one.

use vstd::prelude::*;
use crate::fixed::{are_equal_spec, EPSILON};
use crate::vector::{lemma_difference_in_reach, Point, Vector};

verus! {

/// Whether the point `p` lies on the segment from `start` to `end`: the way
/// through `p` is no longer than the straight one, give or take the
/// tolerance. Both ends lie on it.
pub open spec fn on_segment(start: Point, end: Point, p: Point) -> bool {
    are_equal_spec(
        end.subtract(start).length(),
        p.subtract(start).length() + end.subtract(p).length(),
    )
}

/// A view of two points as the ends of a segment. It borrows them: a segment
/// is made where it is needed and never kept.
pub struct Segment<'a> {
    pub start: &'a Vector,
    pub end: &'a Vector,
}

impl<'a> Segment<'a> {
    /// The segment from `start` to `end`.
    pub fn new(start: &'a Vector, end: &'a Vector) -> (s: Segment<'a>)
        ensures
            *s.start == *start,
            *s.end == *end,
    {
        Segment { start, end }
    }

    /// Whether both ends are in reach.
    pub open spec fn well_formed(&self) -> bool {
        self.start@.in_reach() && self.end@.in_reach()
    }

    /// The displacement from the start to the end.
    pub fn get_vector(&self) -> (v: Vector)
        requires
            self.end@.subtract(self.start@).representable(),
        ensures
            v@ == self.end@.subtract(self.start@),
    {
        self.end.subtract(self.start)
    }

    /// The length of the segment, rounded down to a whole unit.
    pub fn length(&self) -> (len: i64)
        requires
            self.well_formed(),
        ensures
            len == self.end@.subtract(self.start@).length(),
    {
        proof {
            lemma_difference_in_reach(self.start@, self.end@);
        }
        self.get_vector().length()
    }

    /// Whether `point` lies on the segment, ends included.
    pub fn is_point_inside(&self, point: &Vector) -> (r: bool)
        requires
            self.well_formed(),
            point@.in_reach(),
        ensures
            r == on_segment(self.start@, self.end@, point@),
    {
        let first = Segment::new(self.start, point);
        let second = Segment::new(point, self.end);
        proof {
            lemma_difference_in_reach(self.start@, point@);
            lemma_difference_in_reach(point@, self.end@);
            lemma_difference_in_reach(self.start@, self.end@);
        }
        let whole: i128 = self.length() as i128;
        let parts: i128 = first.length() as i128 + second.length() as i128;
        let eps: i128 = EPSILON as i128;
        -eps < whole - parts && whole - parts < eps
    }
}

} // verus!

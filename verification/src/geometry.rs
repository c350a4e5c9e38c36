use vstd::prelude::*;

verus! {

/// Largest magnitude allowed for a coordinate. With both coordinates bounded
/// by this, a squared distance is at most `2^63` and fits in a `u64`.
pub const MAX_ABS_COORD: i64 = 0x4000_0000;

/// Represents a single point in the integer 2D plane.
#[derive(Copy, Clone, Debug, PartialEq, Eq, Structural)]
pub struct Point {
    pub x: i64,
    pub y: i64,
}

/// A point whose coordinates are small enough that squared distances
/// involving it cannot overflow a `u64`.
pub open spec fn valid_point(p: Point) -> bool {
    &&& -MAX_ABS_COORD <= p.x <= MAX_ABS_COORD
    &&& -MAX_ABS_COORD <= p.y <= MAX_ABS_COORD
}

/// Every point of the sequence is in the coordinate range.
pub open spec fn all_valid(s: Seq<Point>) -> bool {
    forall|i: int| 0 <= i < s.len() ==> valid_point(#[trigger] s[i])
}

/// The squared Euclidean distance between two points.
pub open spec fn sq_dist(a: Point, b: Point) -> int {
    (a.x - b.x) * (a.x - b.x) + (a.y - b.y) * (a.y - b.y)
}

pub proof fn lemma_sq_nonneg(t: int)
    by (nonlinear_arith)
    ensures
        t * t >= 0,
{
}

pub proof fn lemma_sq_dist_nonneg(a: Point, b: Point)
    ensures
        sq_dist(a, b) >= 0,
{
    lemma_sq_nonneg(a.x - b.x);
    lemma_sq_nonneg(a.y - b.y);
}

pub proof fn lemma_sq_dist_self(a: Point)
    ensures
        sq_dist(a, a) == 0,
{
    assert((a.x - a.x) * (a.x - a.x) == 0) by (nonlinear_arith);
    assert((a.y - a.y) * (a.y - a.y) == 0) by (nonlinear_arith);
}

pub proof fn lemma_sq_dist_sym(a: Point, b: Point)
    by (nonlinear_arith)
    ensures
        sq_dist(a, b) == sq_dist(b, a),
{
}

/// A squared coordinate difference of valid points stays within `2^62`.
pub proof fn lemma_sq_diff_bound(u: int, v: int)
    by (nonlinear_arith)
    requires
        -0x4000_0000 <= u <= 0x4000_0000,
        -0x4000_0000 <= v <= 0x4000_0000,
    ensures
        0 <= (u - v) * (u - v) <= 0x4000_0000_0000_0000,
{
}

pub proof fn lemma_sq_dist_bound(a: Point, b: Point)
    requires
        valid_point(a),
        valid_point(b),
    ensures
        0 <= sq_dist(a, b) <= 0x8000_0000_0000_0000,
{
    lemma_sq_diff_bound(a.x as int, b.x as int);
    lemma_sq_diff_bound(a.y as int, b.y as int);
}

/// Represents the squared distance between two points. Squares order exactly
/// as the distances themselves, and stay in exact integer arithmetic.
#[derive(Copy, Clone, Debug, PartialEq, Eq, Structural)]
pub struct Distance(pub u64);

impl Distance {
    /// Returns the minimum of two distances.
    pub fn min(self, other: Distance) -> (r: Distance)
        ensures
            r.0 == if self.0 <= other.0 {
                self.0
            } else {
                other.0
            },
    {
        if self.0 <= other.0 {
            self
        } else {
            other
        }
    }
}

impl Point {
    /// Finds the squared distance to another point.
    pub fn distance_to(self, other: Point) -> (d: Distance)
        requires
            valid_point(self),
            valid_point(other),
        ensures
            d.0 == sq_dist(self, other),
    {
        proof {
            lemma_sq_diff_bound(self.x as int, other.x as int);
            lemma_sq_diff_bound(self.y as int, other.y as int);
        }
        let x_dist: i64 = self.x - other.x;
        let y_dist: i64 = self.y - other.y;
        Distance((x_dist * x_dist) as u64 + (y_dist * y_dist) as u64)
    }
}

/// Represents a pair of points.
#[derive(Copy, Clone, Debug, PartialEq, Eq, Structural)]
pub struct PointPair(pub Point, pub Point);

impl PointPair {
    /// Returns the squared distance between the two points in the pair.
    pub fn distance(self) -> (d: Distance)
        requires
            valid_point(self.0),
            valid_point(self.1),
        ensures
            d.0 == sq_dist(self.0, self.1),
    {
        self.0.distance_to(self.1)
    }

    /// Returns the minimum of two `PointPair`s, defined by their distance.
    /// Ties go to `self`.
    pub fn min(self, other: PointPair) -> (r: PointPair)
        requires
            valid_point(self.0),
            valid_point(self.1),
            valid_point(other.0),
            valid_point(other.1),
        ensures
            r == if sq_dist(self.0, self.1) <= sq_dist(other.0, other.1) {
                self
            } else {
                other
            },
    {
        if self.distance().0 <= other.distance().0 {
            self
        } else {
            other
        }
    }
}

} // verus!

use vstd::prelude::*;
use vstd::multiset::Multiset;
use crate::closest::{
    collect_strip, closest_in_range_bruteforce, find_minimum_in_strip, is_closest_pair, is_pair_in,
    lemma_all_valid_after_range_perm, lemma_all_valid_of_perm, lemma_combine_closest,
    lemma_pair_in_add, sort_by_y_key,
};
use crate::geometry::{all_valid, sq_dist, valid_point, Point, PointPair};
use crate::quick_select::{
    lemma_subrange_split_multiset, lemma_x_at_least_multiset, lemma_x_at_most_multiset,
    partitioned_at, quick_select_points_inner,
};

verus! {

/// Task 1: Divide and conquer using QuickSelect.
///
/// Each level splits its range around the median x-coordinate with
/// quickselect, solves the halves, and re-sorts the strip around the
/// splitting line by y before scanning it.
#[derive(Clone, Debug)]
pub struct Task1 {
    points: Vec<Point>,
}

impl View for Task1 {
    type V = Seq<Point>;

    closed spec fn view(&self) -> Seq<Point> {
        self.points@
    }
}

impl Task1 {
    /// Create a new `Task1` struct.
    pub fn new(points: Vec<Point>) -> (r: Self)
        ensures
            r@ == points@,
    {
        Self { points }
    }

    /// Find the closest pair of points in the list.
    pub fn find_closest_pair(&mut self) -> (r: PointPair)
        requires
            old(self)@.len() >= 2,
            all_valid(old(self)@),
        ensures
            final(self)@.to_multiset() == old(self)@.to_multiset(),
            is_closest_pair(old(self)@.to_multiset(), r),
            valid_point(r.0),
            valid_point(r.1),
    {
        let n = self.points.len();
        let r = find_closest_pair_inner(&mut self.points, 0, n);
        proof {
            assert(self.points@.subrange(0, n as int) =~= self.points@);
            assert(old(self)@.subrange(0, n as int) =~= old(self)@);
        }
        r
    }
}

/// One level of the divide-and-conquer solve, on positions `[lo, hi)` of the
/// working buffer. The buffer outside the range is untouched; the range is
/// permuted; the returned pair is a closest pair of the range's points.
pub(crate) fn find_closest_pair_inner(points: &mut Vec<Point>, lo: usize, hi: usize) -> (r:
    PointPair)
    requires
        lo < hi <= old(points)@.len(),
        hi - lo >= 2,
        all_valid(old(points)@),
    ensures
        final(points)@.len() == old(points)@.len(),
        final(points)@.subrange(lo as int, hi as int).to_multiset() == old(points)@.subrange(
            lo as int,
            hi as int,
        ).to_multiset(),
        forall|t: int|
            (0 <= t < lo || hi <= t < old(points)@.len()) ==> final(points)@[t] == old(points)@[t],
        all_valid(final(points)@),
        is_closest_pair(old(points)@.subrange(lo as int, hi as int).to_multiset(), r),
        valid_point(r.0),
        valid_point(r.1),
    decreases hi - lo,
{
    let ghost s0 = points@;
    // Base case: we can't recurse any further
    if hi - lo <= 3 {
        let r = closest_in_range_bruteforce(points, lo, hi);
        return r;
    }
    // Use quickselect to find the median point, splitting the range into a
    // lesser and a greater half
    let mid = lo + (hi - lo) / 2;
    quick_select_points_inner(points, lo, hi, mid);
    let ghost s1 = points@;
    proof {
        lemma_all_valid_after_range_perm(s0, s1, lo as int, hi as int);
    }
    let median = points[mid];
    let mx = median.x;
    let ghost left_ms = s1.subrange(lo as int, mid as int).to_multiset();
    let ghost right_ms = s1.subrange(mid as int, hi as int).to_multiset();
    proof {
        assert forall|i: int| 0 <= i < s1.subrange(lo as int, mid as int).len() implies (
        #[trigger] s1.subrange(lo as int, mid as int)[i]).x <= mx as int by {
            assert(s1.subrange(lo as int, mid as int)[i] == s1[lo + i]);
            assert(partitioned_at(s1, lo as int, hi as int, mid as int));
        }
        lemma_x_at_most_multiset(s1.subrange(lo as int, mid as int), mx as int);
        assert forall|i: int| 0 <= i < s1.subrange(mid as int, hi as int).len() implies (
        #[trigger] s1.subrange(mid as int, hi as int)[i]).x >= mx as int by {
            assert(s1.subrange(mid as int, hi as int)[i] == s1[mid + i]);
            assert(partitioned_at(s1, lo as int, hi as int, mid as int));
        }
        lemma_x_at_least_multiset(s1.subrange(mid as int, hi as int), mx as int);
        lemma_subrange_split_multiset(s1, lo as int, mid as int, hi as int);
    }
    // Recursively solve the problem by left and right
    let left_minimum = find_closest_pair_inner(points, lo, mid);
    let ghost s1b = points@;
    proof {
        assert(s1b.subrange(mid as int, hi as int) =~= s1.subrange(mid as int, hi as int));
    }
    let right_minimum = find_closest_pair_inner(points, mid, hi);
    let ghost s2 = points@;
    proof {
        assert(s2.subrange(lo as int, mid as int) =~= s1b.subrange(lo as int, mid as int));
        assert(s2.subrange(lo as int, mid as int).to_multiset() == left_ms);
        assert(s2.subrange(mid as int, hi as int).to_multiset() == right_ms);
        lemma_subrange_split_multiset(s2, lo as int, mid as int, hi as int);
        assert(s2.subrange(lo as int, hi as int).to_multiset() == left_ms.add(right_ms));
        assert(s0.subrange(lo as int, hi as int).to_multiset() == left_ms.add(right_ms));
    }
    // Get minimum distance
    let minimum = left_minimum.min(right_minimum);
    let delta = minimum.distance();
    proof {
        assert(is_pair_in(left_ms, left_minimum.0, left_minimum.1));
        assert(is_pair_in(right_ms, right_minimum.0, right_minimum.1));
        lemma_pair_in_add(left_ms, right_ms, minimum.0, minimum.1);
        assert forall|a: Point, b: Point| #[trigger] is_pair_in(left_ms, a, b) implies sq_dist(a, b)
            >= delta.0 by {
            assert(sq_dist(a, b) >= sq_dist(left_minimum.0, left_minimum.1));
        }
        assert forall|a: Point, b: Point| #[trigger] is_pair_in(right_ms, a, b) implies sq_dist(
            a,
            b,
        ) >= delta.0 by {
            assert(sq_dist(a, b) >= sq_dist(right_minimum.0, right_minimum.1));
        }
    }
    // Filter out all points not in the strip, sort by y coordinate
    let strip = collect_strip(points, lo, hi, mx, delta.0);
    let ghost strip_view = strip@;
    let strip_sorted = sort_by_y_key(strip);
    proof {
        lemma_all_valid_of_perm(strip_view, strip_sorted@);
    }
    // Return the new minimum if the strip had a better value
    let strip_result = find_minimum_in_strip(&strip_sorted, delta);
    proof {
        lemma_combine_closest(
            left_ms,
            right_ms,
            mx as int,
            delta.0 as int,
            minimum,
            strip_sorted@.to_multiset(),
            strip_result,
        );
    }
    match strip_result {
        Some(m) => m,
        None => minimum,
    }
}

} // verus!

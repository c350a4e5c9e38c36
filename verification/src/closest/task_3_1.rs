use vstd::prelude::*;
use crate::closest::{
    collect_strip, closest_in_range_bruteforce, find_minimum_in_strip, is_closest_pair, is_pair_in,
    lemma_all_valid_of_perm, lemma_combine_closest, lemma_pair_in_add, sort_by_x_in_place,
    sort_by_y_key, sorted_by_x,
};
use crate::geometry::{all_valid, sq_dist, valid_point, Point, PointPair};
use crate::quick_select::{
    lemma_subrange_split_multiset, lemma_x_at_least_multiset, lemma_x_at_most_multiset,
};

verus! {

/// Task 3 (1): Divide and conquer, pre-sort points by x-coordinates.
///
/// The buffer is sorted by x once up front; each level then splits at the
/// midpoint, and only the strip is re-sorted by y.
#[derive(Clone, Debug)]
pub struct Task3QuickSort {
    points: Vec<Point>,
}

impl View for Task3QuickSort {
    type V = Seq<Point>;

    closed spec fn view(&self) -> Seq<Point> {
        self.points@
    }
}

impl Task3QuickSort {
    /// Create a new `Task3QuickSort` struct.
    pub fn new(points: Vec<Point>) -> (r: Self)
        ensures
            r@ == points@,
    {
        Self { points }
    }

    /// Find the closest pair of points in the list.
    pub fn find_closest_pair(&mut self) -> (r: PointPair)
        requires
            old(self)@.len() >= 2,
            all_valid(old(self)@),
        ensures
            final(self)@.to_multiset() == old(self)@.to_multiset(),
            sorted_by_x(final(self)@),
            is_closest_pair(old(self)@.to_multiset(), r),
            valid_point(r.0),
            valid_point(r.1),
    {
        sort_by_x_in_place(&mut self.points);
        proof {
            broadcast use vstd::seq_lib::group_to_multiset_ensures;

            lemma_all_valid_of_perm(old(self)@, self.points@);
            assert(self.points@.len() == self.points@.to_multiset().len());
            assert(old(self)@.len() == old(self)@.to_multiset().len());
        }
        let n = self.points.len();
        proof {
            assert(self.points@.subrange(0, n as int) =~= self.points@);
        }
        let r = find_closest_pair_inner(&self.points, 0, n);
        r
    }
}

/// One level of the divide-and-conquer solve on the x-sorted buffer,
/// restricted to positions `[lo, hi)`. Nothing is mutated: the split is a
/// plain midpoint of the sorted range.
fn find_closest_pair_inner(points: &Vec<Point>, lo: usize, hi: usize) -> (r: PointPair)
    requires
        lo < hi <= points@.len(),
        hi - lo >= 2,
        all_valid(points@),
        sorted_by_x(points@.subrange(lo as int, hi as int)),
    ensures
        is_closest_pair(points@.subrange(lo as int, hi as int).to_multiset(), r),
        valid_point(r.0),
        valid_point(r.1),
    decreases hi - lo,
{
    let ghost sub = points@.subrange(lo as int, hi as int);
    // Base case: we can't recurse any further
    if hi - lo <= 3 {
        let r = closest_in_range_bruteforce(points, lo, hi);
        return r;
    }
    // The entire range is already sorted: split it at the midpoint
    let mid = lo + (hi - lo) / 2;
    let median = points[mid];
    let mx = median.x;
    let ghost left_ms = points@.subrange(lo as int, mid as int).to_multiset();
    let ghost right_ms = points@.subrange(mid as int, hi as int).to_multiset();
    proof {
        assert forall|i: int, j: int|
            #![trigger points@.subrange(lo as int, mid as int)[i], points@.subrange(lo as int, mid as int)[j]]
            0 <= i <= j < points@.subrange(lo as int, mid as int).len() implies points@.subrange(
            lo as int,
            mid as int,
        )[i].x <= points@.subrange(lo as int, mid as int)[j].x by {
            assert(points@.subrange(lo as int, mid as int)[i] == sub[i]);
            assert(points@.subrange(lo as int, mid as int)[j] == sub[j]);
        }
        assert(sorted_by_x(points@.subrange(lo as int, mid as int)));
        assert forall|i: int, j: int|
            #![trigger points@.subrange(mid as int, hi as int)[i], points@.subrange(mid as int, hi as int)[j]]
            0 <= i <= j < points@.subrange(mid as int, hi as int).len() implies points@.subrange(
            mid as int,
            hi as int,
        )[i].x <= points@.subrange(mid as int, hi as int)[j].x by {
            assert(points@.subrange(mid as int, hi as int)[i] == sub[mid - lo + i]);
            assert(points@.subrange(mid as int, hi as int)[j] == sub[mid - lo + j]);
        }
        assert(sorted_by_x(points@.subrange(mid as int, hi as int)));
        assert forall|i: int| 0 <= i < points@.subrange(lo as int, mid as int).len() implies (
        #[trigger] points@.subrange(lo as int, mid as int)[i]).x <= mx as int by {
            assert(points@.subrange(lo as int, mid as int)[i] == sub[i]);
            assert(sub[mid - lo] == points@[mid as int]);
        }
        lemma_x_at_most_multiset(points@.subrange(lo as int, mid as int), mx as int);
        assert forall|i: int| 0 <= i < points@.subrange(mid as int, hi as int).len() implies (
        #[trigger] points@.subrange(mid as int, hi as int)[i]).x >= mx as int by {
            assert(points@.subrange(mid as int, hi as int)[i] == sub[mid - lo + i]);
            assert(sub[mid - lo] == points@[mid as int]);
        }
        lemma_x_at_least_multiset(points@.subrange(mid as int, hi as int), mx as int);
        lemma_subrange_split_multiset(points@, lo as int, mid as int, hi as int);
    }
    // Recursively solve the problem by left and right
    let left_minimum = find_closest_pair_inner(points, lo, mid);
    let right_minimum = find_closest_pair_inner(points, mid, hi);
    // Get minimum distance
    let minimum = left_minimum.min(right_minimum);
    let delta = minimum.distance();
    proof {
        lemma_pair_in_add(left_ms, right_ms, minimum.0, minimum.1);
        assert forall|a: Point, b: Point| #[trigger] is_pair_in(left_ms, a, b) implies sq_dist(a, b)
            >= delta.0 by {
            assert(sq_dist(a, b) >= sq_dist(left_minimum.0, left_minimum.1));
        }
        assert forall|a: Point, b: Point| #[trigger] is_pair_in(right_ms, a, b) implies sq_dist(
            a,
            b,
        ) >= delta.0 by {
            assert(sq_dist(a, b) >= sq_dist(right_minimum.0, right_minimum.1));
        }
    }
    // Filter out all points not in the strip, sort by y coordinate
    let strip = collect_strip(points, lo, hi, mx, delta.0);
    let ghost strip_view = strip@;
    let strip_sorted = sort_by_y_key(strip);
    proof {
        lemma_all_valid_of_perm(strip_view, strip_sorted@);
    }
    // Return the new minimum if the strip had a better value
    let strip_result = find_minimum_in_strip(&strip_sorted, delta);
    proof {
        lemma_combine_closest(
            left_ms,
            right_ms,
            mx as int,
            delta.0 as int,
            minimum,
            strip_sorted@.to_multiset(),
            strip_result,
        );
    }
    match strip_result {
        Some(m) => m,
        None => minimum,
    }
}

} // verus!

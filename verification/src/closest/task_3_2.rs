use vstd::prelude::*;
use vstd::multiset::group_multiset_axioms;
use vstd::seq_lib::group_to_multiset_ensures;
use vstd::pervasive::VecAdditionalExecFns;
use crate::closest::{
    collect_strip, closest_in_range_bruteforce, find_minimum_in_strip, is_closest_pair, is_pair_in,
    lemma_all_valid_after_range_perm, lemma_all_valid_of_perm, lemma_combine_closest,
    lemma_pair_in_add, sort_by_x_in_place, sort_by_y_key, sorted_by_x, sorted_by_y,
};
use crate::geometry::{all_valid, sq_dist, valid_point, Point, PointPair};
use crate::quick_select::{
    lemma_subrange_split_multiset, lemma_x_at_least_multiset, lemma_x_at_most_multiset,
};

verus! {

/// Task 3 (2): Divide and conquer, pre-sort points by x-coordinates, then
/// sort by y-coordinates on the way up the call tree.
///
/// Each recursive return leaves its whole range sorted by y, produced by a
/// linear merge of the two children's ranges, so the strip never needs
/// re-sorting. This is the asymptotically optimal variant.
#[derive(Clone, Debug)]
pub struct Task3SortedY {
    points: Vec<Point>,
}

impl View for Task3SortedY {
    type V = Seq<Point>;

    closed spec fn view(&self) -> Seq<Point> {
        self.points@
    }
}

impl Task3SortedY {
    /// Create a new `Task3SortedY` struct.
    pub fn new(points: Vec<Point>) -> (r: Self)
        ensures
            r@ == points@,
    {
        Self { points }
    }

    /// Find the closest pair of points in the list.
    pub fn find_closest_pair(&mut self) -> (r: PointPair)
        requires
            old(self)@.len() >= 2,
            all_valid(old(self)@),
        ensures
            final(self)@.to_multiset() == old(self)@.to_multiset(),
            sorted_by_y(final(self)@),
            is_closest_pair(old(self)@.to_multiset(), r),
            valid_point(r.0),
            valid_point(r.1),
    {
        sort_by_x_in_place(&mut self.points);
        proof {
            broadcast use group_to_multiset_ensures;

            lemma_all_valid_of_perm(old(self)@, self.points@);
            assert(self.points@.len() == self.points@.to_multiset().len());
            assert(old(self)@.len() == old(self)@.to_multiset().len());
        }
        let n = self.points.len();
        let ghost sorted_view = self.points@;
        proof {
            assert(self.points@.subrange(0, n as int) =~= self.points@);
        }
        let r = find_closest_pair_inner(&mut self.points, 0, n);
        proof {
            assert(self.points@.subrange(0, n as int) =~= self.points@);
            assert(sorted_view.subrange(0, n as int) =~= sorted_view);
        }
        r
    }
}

/// Copies the points at positions `[lo, hi)` into a fresh vector.
fn copy_range(points: &Vec<Point>, lo: usize, hi: usize) -> (r: Vec<Point>)
    requires
        lo <= hi <= points@.len(),
    ensures
        r@ == points@.subrange(lo as int, hi as int),
{
    let mut r: Vec<Point> = Vec::new();
    let mut k = lo;
    while k < hi
        invariant
            lo <= k <= hi <= points@.len(),
            r@ == points@.subrange(lo as int, k as int),
        decreases hi - k,
    {
        r.push(points[k]);
        proof {
            assert(points@.subrange(lo as int, k as int + 1) =~= points@.subrange(
                lo as int,
                k as int,
            ).push(points@[k as int]));
        }
        k += 1;
    }
    r
}

/// Writes `src` over the positions starting at `lo`.
fn copy_into_range(points: &mut Vec<Point>, lo: usize, src: &Vec<Point>)
    requires
        lo + src@.len() <= old(points)@.len(),
    ensures
        final(points)@.len() == old(points)@.len(),
        final(points)@.subrange(lo as int, lo as int + src@.len() as int) == src@,
        forall|t: int|
            (0 <= t < lo || lo + src@.len() <= t < old(points)@.len()) ==> final(points)@[t] == old(
                points,
            )@[t],
{
    let n = src.len();
    let total = points.len();
    let mut k: usize = 0;
    while k < n
        invariant
            k <= n,
            n == src@.len(),
            lo + n <= total,
            total == points@.len(),
            points@.len() == old(points)@.len(),
            forall|t: int| lo <= t < lo + k ==> points@[t] == src@[t - lo],
            forall|t: int|
                (0 <= t < lo || lo + k <= t < old(points)@.len()) ==> points@[t] == old(
                    points,
                )@[t],
        decreases n - k,
    {
        points.set(lo + k, src[k]);
        k += 1;
    }
    proof {
        assert forall|t: int| 0 <= t < src@.len() implies points@.subrange(
            lo as int,
            lo as int + src@.len() as int,
        )[t] == src@[t] by {
            assert(points@[lo + t] == src@[t]);
        }
        assert(points@.subrange(lo as int, lo as int + src@.len() as int) =~= src@);
    }
}

/// The stable merge of two y-sorted sequences: smaller y first, and on
/// equal y the element of `left` before the element of `right`.
pub open spec fn merge_by_y(left: Seq<Point>, right: Seq<Point>) -> Seq<Point>
    decreases left.len(), right.len(),
{
    if left.len() == 0 {
        right
    } else if right.len() == 0 {
        left
    } else if left.first().y <= right.first().y {
        seq![left.first()] + merge_by_y(left.drop_first(), right)
    } else {
        seq![right.first()] + merge_by_y(left, right.drop_first())
    }
}

/// Merges two y-sorted vectors `left` and `right` into the vector `points`,
/// which must have exactly the combined length. Afterwards `points` is the
/// stable merge of the two inputs: y-sorted end-to-end, holding exactly the
/// inputs' elements, with the element from `left` first on equal y.
pub fn merge(left: &Vec<Point>, right: &Vec<Point>, points: &mut Vec<Point>)
    requires
        sorted_by_y(left@),
        sorted_by_y(right@),
        old(points)@.len() == left@.len() + right@.len(),
    ensures
        final(points)@.len() == old(points)@.len(),
        sorted_by_y(final(points)@),
        final(points)@.to_multiset() == left@.to_multiset().add(right@.to_multiset()),
        final(points)@ == merge_by_y(left@, right@),
{
    let llen = left.len();
    let rlen = right.len();
    let total = points.len();
    let mut i: usize = 0;
    let mut j: usize = 0;
    let mut k: usize = 0;
    proof {
        broadcast use group_to_multiset_ensures;
        broadcast use group_multiset_axioms;

        assert(left@.take(0int) =~= Seq::<Point>::empty());
        assert(right@.take(0int) =~= Seq::<Point>::empty());
        assert(points@.subrange(0, 0) =~= Seq::<Point>::empty());
        assert forall|x: Point| #[trigger] points@.subrange(0, 0).to_multiset().count(x) == left@.take(
            0int,
        ).to_multiset().add(right@.take(0int).to_multiset()).count(x) by {
            assert(!points@.subrange(0, 0).contains(x));
            assert(!left@.take(0int).contains(x));
            assert(!right@.take(0int).contains(x));
        }
        assert(points@.subrange(0, 0).to_multiset() =~= left@.take(0int).to_multiset().add(
            right@.take(0int).to_multiset(),
        ));
        assert(left@.skip(0int) =~= left@);
        assert(right@.skip(0int) =~= right@);
        assert(points@.subrange(0, 0) + merge_by_y(left@.skip(0int), right@.skip(0int))
            =~= merge_by_y(left@, right@));
    }
    while i < llen || j < rlen
        invariant
            i <= llen,
            j <= rlen,
            k == i + j,
            llen == left@.len(),
            rlen == right@.len(),
            k <= total,
            total == points@.len(),
            points@.len() == old(points)@.len() == llen + rlen,
            sorted_by_y(left@),
            sorted_by_y(right@),
            sorted_by_y(points@.subrange(0, k as int)),
            points@.subrange(0, k as int).to_multiset() == left@.take(i as int).to_multiset().add(
                right@.take(j as int).to_multiset(),
            ),
            merge_by_y(left@, right@) == points@.subrange(0, k as int) + merge_by_y(
                left@.skip(i as int),
                right@.skip(j as int),
            ),
            i < llen ==> forall|t: int|
                0 <= t < k ==> (#[trigger] points@[t]).y <= left@[i as int].y,
            j < rlen ==> forall|t: int|
                0 <= t < k ==> (#[trigger] points@[t]).y <= right@[j as int].y,
        decreases llen + rlen - k,
    {
        let ghost pre = points@.subrange(0, k as int);
        let take_left = if i < llen {
            if j < rlen {
                left[i].y <= right[j].y
            } else {
                true
            }
        } else {
            false
        };
        if take_left {
            points.set(k, left[i]);
            proof {
                broadcast use group_to_multiset_ensures;
                broadcast use group_multiset_axioms;

                assert(points@.subrange(0, k as int) =~= pre);
                assert(points@.subrange(0, k as int + 1) =~= pre.push(left@[i as int]));
                assert(left@.take(i as int + 1) =~= left@.take(i as int).push(left@[i as int]));
                assert(points@.subrange(0, k as int + 1).to_multiset() =~= left@.take(
                    i as int + 1,
                ).to_multiset().add(right@.take(j as int).to_multiset()));
                let li = left@.skip(i as int);
                let rj = right@.skip(j as int);
                assert(li.first() == left@[i as int]);
                assert(li.drop_first() =~= left@.skip(i as int + 1));
                if j < rlen {
                    assert(rj.first() == right@[j as int]);
                    assert(merge_by_y(li, rj) == seq![left@[i as int]] + merge_by_y(
                        left@.skip(i as int + 1),
                        rj,
                    ));
                } else {
                    assert(rj =~= Seq::<Point>::empty());
                    assert(merge_by_y(li, rj) == li);
                    assert(merge_by_y(left@.skip(i as int + 1), rj) =~= left@.skip(i as int + 1));
                    assert(li =~= seq![left@[i as int]] + left@.skip(i as int + 1));
                    assert(merge_by_y(li, rj) == seq![left@[i as int]] + merge_by_y(
                        left@.skip(i as int + 1),
                        rj,
                    ));
                }
                assert(points@.subrange(0, k as int + 1) + merge_by_y(
                    left@.skip(i as int + 1),
                    rj,
                ) =~= pre + merge_by_y(li, rj));
            }
            i += 1;
        } else {
            points.set(k, right[j]);
            proof {
                broadcast use group_to_multiset_ensures;
                broadcast use group_multiset_axioms;

                assert(points@.subrange(0, k as int) =~= pre);
                assert(points@.subrange(0, k as int + 1) =~= pre.push(right@[j as int]));
                assert(right@.take(j as int + 1) =~= right@.take(j as int).push(right@[j as int]));
                assert(points@.subrange(0, k as int + 1).to_multiset() =~= left@.take(
                    i as int,
                ).to_multiset().add(right@.take(j as int + 1).to_multiset()));
                let li = left@.skip(i as int);
                let rj = right@.skip(j as int);
                assert(rj.first() == right@[j as int]);
                assert(rj.drop_first() =~= right@.skip(j as int + 1));
                if i < llen {
                    assert(li.first() == left@[i as int]);
                    assert(!(li.first().y <= rj.first().y));
                    assert(merge_by_y(li, rj) == seq![right@[j as int]] + merge_by_y(
                        li,
                        right@.skip(j as int + 1),
                    ));
                } else {
                    assert(li =~= Seq::<Point>::empty());
                    assert(merge_by_y(li, rj) == rj);
                    assert(merge_by_y(li, right@.skip(j as int + 1)) =~= right@.skip(j as int + 1));
                    assert(rj =~= seq![right@[j as int]] + right@.skip(j as int + 1));
                    assert(merge_by_y(li, rj) == seq![right@[j as int]] + merge_by_y(
                        li,
                        right@.skip(j as int + 1),
                    ));
                }
                assert(points@.subrange(0, k as int + 1) + merge_by_y(
                    li,
                    right@.skip(j as int + 1),
                ) =~= pre + merge_by_y(li, rj));
            }
            j += 1;
        }
        k += 1;
    }
    proof {
        assert(points@.subrange(0, k as int) =~= points@);
        assert(left@.take(i as int) =~= left@);
        assert(right@.take(j as int) =~= right@);
        assert(left@.skip(i as int) =~= Seq::<Point>::empty());
        assert(right@.skip(j as int) =~= Seq::<Point>::empty());
        assert(merge_by_y(left@.skip(i as int), right@.skip(j as int)) =~= Seq::<Point>::empty());
        assert(points@ + Seq::<Point>::empty() =~= points@);
        assert(points@ == merge_by_y(left@, right@));
    }
}

/// One level of the solve on positions `[lo, hi)` of the x-sorted buffer.
/// On return the range holds the same points re-ordered by y, and the
/// returned pair is a closest pair of those points.
fn find_closest_pair_inner(points: &mut Vec<Point>, lo: usize, hi: usize) -> (r: PointPair)
    requires
        lo < hi <= old(points)@.len(),
        hi - lo >= 2,
        all_valid(old(points)@),
        sorted_by_x(old(points)@.subrange(lo as int, hi as int)),
    ensures
        final(points)@.len() == old(points)@.len(),
        final(points)@.subrange(lo as int, hi as int).to_multiset() == old(points)@.subrange(
            lo as int,
            hi as int,
        ).to_multiset(),
        forall|t: int|
            (0 <= t < lo || hi <= t < old(points)@.len()) ==> final(points)@[t] == old(points)@[t],
        all_valid(final(points)@),
        // the merge invariant: the whole range comes back sorted by y
        sorted_by_y(final(points)@.subrange(lo as int, hi as int)),
        is_closest_pair(old(points)@.subrange(lo as int, hi as int).to_multiset(), r),
        valid_point(r.0),
        valid_point(r.1),
    decreases hi - lo,
{
    let ghost s0 = points@;
    // Base case: sort the few points by y in place and use brute force
    if hi - lo <= 3 {
        let tmp = copy_range(points, lo, hi);
        let ghost tmp_view = tmp@;
        let tmp_sorted = sort_by_y_key(tmp);
        proof {
            broadcast use group_to_multiset_ensures;

            assert(tmp_sorted@.len() == tmp_sorted@.to_multiset().len());
            assert(tmp_view.len() == tmp_view.to_multiset().len());
        }
        copy_into_range(points, lo, &tmp_sorted);
        proof {
            lemma_all_valid_after_range_perm(s0, points@, lo as int, hi as int);
        }
        let r = closest_in_range_bruteforce(points, lo, hi);
        return r;
    }
    // The range is x-sorted: split it at the midpoint, remembering the median
    let mid = lo + (hi - lo) / 2;
    let median = points[mid];
    let mx = median.x;
    let ghost left_ms = s0.subrange(lo as int, mid as int).to_multiset();
    let ghost right_ms = s0.subrange(mid as int, hi as int).to_multiset();
    proof {
        let sub = s0.subrange(lo as int, hi as int);
        assert forall|i: int, j: int|
            #![trigger s0.subrange(lo as int, mid as int)[i], s0.subrange(lo as int, mid as int)[j]]
            0 <= i <= j < s0.subrange(lo as int, mid as int).len() implies s0.subrange(
            lo as int,
            mid as int,
        )[i].x <= s0.subrange(lo as int, mid as int)[j].x by {
            assert(s0.subrange(lo as int, mid as int)[i] == sub[i]);
            assert(s0.subrange(lo as int, mid as int)[j] == sub[j]);
        }
        assert(sorted_by_x(s0.subrange(lo as int, mid as int)));
        assert forall|i: int, j: int|
            #![trigger s0.subrange(mid as int, hi as int)[i], s0.subrange(mid as int, hi as int)[j]]
            0 <= i <= j < s0.subrange(mid as int, hi as int).len() implies s0.subrange(
            mid as int,
            hi as int,
        )[i].x <= s0.subrange(mid as int, hi as int)[j].x by {
            assert(s0.subrange(mid as int, hi as int)[i] == sub[mid - lo + i]);
            assert(s0.subrange(mid as int, hi as int)[j] == sub[mid - lo + j]);
        }
        assert(sorted_by_x(s0.subrange(mid as int, hi as int)));
        assert forall|i: int| 0 <= i < s0.subrange(lo as int, mid as int).len() implies (
        #[trigger] s0.subrange(lo as int, mid as int)[i]).x <= mx as int by {
            assert(s0.subrange(lo as int, mid as int)[i] == sub[i]);
            assert(sub[mid - lo] == s0[mid as int]);
        }
        lemma_x_at_most_multiset(s0.subrange(lo as int, mid as int), mx as int);
        assert forall|i: int| 0 <= i < s0.subrange(mid as int, hi as int).len() implies (
        #[trigger] s0.subrange(mid as int, hi as int)[i]).x >= mx as int by {
            assert(s0.subrange(mid as int, hi as int)[i] == sub[mid - lo + i]);
            assert(sub[mid - lo] == s0[mid as int]);
        }
        lemma_x_at_least_multiset(s0.subrange(mid as int, hi as int), mx as int);
        lemma_subrange_split_multiset(s0, lo as int, mid as int, hi as int);
    }
    // Recursively solve the problem by left and right
    let left_minimum = find_closest_pair_inner(points, lo, mid);
    let ghost s1b = points@;
    proof {
        assert(s1b.subrange(mid as int, hi as int) =~= s0.subrange(mid as int, hi as int));
    }
    let right_minimum = find_closest_pair_inner(points, mid, hi);
    let ghost s2 = points@;
    proof {
        assert(s2.subrange(lo as int, mid as int) =~= s1b.subrange(lo as int, mid as int));
        assert(s2.subrange(lo as int, mid as int).to_multiset() == left_ms);
        assert(s2.subrange(mid as int, hi as int).to_multiset() == right_ms);
    }
    // Merge the two y-sorted halves so the whole range is y-sorted
    let left_vec = copy_range(points, lo, mid);
    let right_vec = copy_range(points, mid, hi);
    let mut merged = copy_range(points, lo, hi);
    proof {
        assert(sorted_by_y(left_vec@));
        assert(sorted_by_y(right_vec@));
    }
    merge(&left_vec, &right_vec, &mut merged);
    copy_into_range(points, lo, &merged);
    let ghost s3 = points@;
    proof {
        assert(s3.subrange(lo as int, hi as int) == merged@);
        assert(s3.subrange(lo as int, hi as int).to_multiset() == left_ms.add(right_ms));
        lemma_subrange_split_multiset(s0, lo as int, mid as int, hi as int);
        assert(s0.subrange(lo as int, hi as int).to_multiset() == left_ms.add(right_ms));
        lemma_all_valid_after_range_perm(s0, s3, lo as int, hi as int);
    }
    // Get minimum distance
    let minimum = left_minimum.min(right_minimum);
    let delta = minimum.distance();
    proof {
        lemma_pair_in_add(left_ms, right_ms, minimum.0, minimum.1);
        assert forall|a: Point, b: Point| #[trigger] is_pair_in(left_ms, a, b) implies sq_dist(a, b)
            >= delta.0 by {
            assert(sq_dist(a, b) >= sq_dist(left_minimum.0, left_minimum.1));
        }
        assert forall|a: Point, b: Point| #[trigger] is_pair_in(right_ms, a, b) implies sq_dist(
            a,
            b,
        ) >= delta.0 by {
            assert(sq_dist(a, b) >= sq_dist(right_minimum.0, right_minimum.1));
        }
    }
    // Filter to the strip; it inherits the y-order of the merged range
    let strip = collect_strip(points, lo, hi, mx, delta.0);
    let strip_result = find_minimum_in_strip(&strip, delta);
    proof {
        lemma_combine_closest(
            left_ms,
            right_ms,
            mx as int,
            delta.0 as int,
            minimum,
            strip@.to_multiset(),
            strip_result,
        );
    }
    match strip_result {
        Some(m) => m,
        None => minimum,
    }
}

} // verus!

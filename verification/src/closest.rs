use vstd::prelude::*;
use vstd::multiset::Multiset;
use vstd::seq_lib::group_to_multiset_ensures;
use vstd::multiset::group_multiset_axioms;
use itertools::Itertools;
use crate::geometry::{
    Distance, Point, PointPair, all_valid, lemma_sq_dist_nonneg, lemma_sq_dist_sym, lemma_sq_nonneg,
    lemma_sq_diff_bound, sq_dist, valid_point, MAX_ABS_COORD,
};

pub mod closest_v1;
pub mod task_1;
pub mod task_3_1;
pub mod task_3_2;
pub mod task_4;

verus! {

// ---------------------------------------------------------------------------
// The mathematical model: pairs drawn from a multiset of points.
//
// Solvers are free to permute their working buffer, so their contracts speak
// of the multiset of points they were given. A "pair" is two points taken
// from the multiset, counting multiplicity: two coincident input points form
// a pair at squared distance zero.
// ---------------------------------------------------------------------------

/// Two points drawn (with multiplicity) from the multiset `m`.
pub open spec fn is_pair_in(m: Multiset<Point>, a: Point, b: Point) -> bool {
    m.contains(a) && m.remove(a).contains(b)
}

/// Every pair of points of `m` is at squared distance at least `d`.
pub open spec fn no_pair_closer_than(m: Multiset<Point>, d: int) -> bool {
    forall|a: Point, b: Point| #[trigger] is_pair_in(m, a, b) ==> sq_dist(a, b) >= d
}

/// `p` is a pair of points of `m` realizing the minimal squared distance.
pub open spec fn is_closest_pair(m: Multiset<Point>, p: PointPair) -> bool {
    &&& is_pair_in(m, p.0, p.1)
    &&& no_pair_closer_than(m, sq_dist(p.0, p.1))
}

/// Every point of the multiset is in the coordinate range.
pub open spec fn all_valid_in(m: Multiset<Point>) -> bool {
    forall|p: Point| #[trigger] m.contains(p) ==> valid_point(p)
}

/// `part` holds exactly the elements of `whole` satisfying `pred`,
/// with their multiplicities.
pub open spec fn restricted_to(
    part: Multiset<Point>,
    whole: Multiset<Point>,
    pred: spec_fn(Point) -> bool,
) -> bool {
    forall|x: Point|
        #[trigger] part.count(x) == if pred(x) {
            whole.count(x)
        } else {
            0nat
        }
}

/// Membership of a point in the strip of half-width-squared `d`
/// around the vertical line `x == mx`.
pub open spec fn in_strip(p: Point, mx: int, d: int) -> bool {
    (p.x - mx) * (p.x - mx) < d
}

/// Points ordered by `y` coordinate.
pub open spec fn sorted_by_y(s: Seq<Point>) -> bool {
    forall|i: int, j: int| #![trigger s[i], s[j]] 0 <= i <= j < s.len() ==> s[i].y <= s[j].y
}

/// Points ordered by `x` coordinate.
pub open spec fn sorted_by_x(s: Seq<Point>) -> bool {
    forall|i: int, j: int| #![trigger s[i], s[j]] 0 <= i <= j < s.len() ==> s[i].x <= s[j].x
}

// ---------------------------------------------------------------------------
// Bridges between index pairs of a sequence and pairs of its multiset.
// ---------------------------------------------------------------------------

/// A pair of counts suffices for a pair of the multiset.
pub proof fn lemma_pair_from_counts(m: Multiset<Point>, a: Point, b: Point)
    requires
        (a == b && m.count(a) >= 2) || (a != b && m.count(a) >= 1 && m.count(b) >= 1),
    ensures
        is_pair_in(m, a, b),
{
    broadcast use group_multiset_axioms;

    assert(m.remove(a).count(b) >= 1);
}

/// A pair of the multiset yields the counts back.
pub proof fn lemma_counts_from_pair(m: Multiset<Point>, a: Point, b: Point)
    requires
        is_pair_in(m, a, b),
    ensures
        a == b ==> m.count(a) >= 2,
        a != b ==> m.count(a) >= 1 && m.count(b) >= 1,
{
    broadcast use group_multiset_axioms;

    assert(m.remove(a).count(b) >= 1);
}

/// Two distinct positions of a sequence give a pair of its multiset.
pub proof fn lemma_seq_pair_in_multiset(s: Seq<Point>, i: int, j: int)
    requires
        0 <= i < s.len(),
        0 <= j < s.len(),
        i != j,
    ensures
        is_pair_in(s.to_multiset(), s[i], s[j]),
{
    broadcast use group_to_multiset_ensures;
    broadcast use group_multiset_axioms;

    assert(s.contains(s[i]));
    s.remove_ensures(i);
    let j1 = if j < i {
        j
    } else {
        j - 1
    };
    assert(s.remove(i)[j1] == s[j]);
    assert(s.remove(i).contains(s[j]));
    assert(s.remove(i).to_multiset() == s.to_multiset().remove(s[i]));
}

/// A pair of the multiset of a sequence is realized at two distinct positions.
pub proof fn lemma_multiset_pair_to_indices(s: Seq<Point>, a: Point, b: Point) -> (ij: (int, int))
    requires
        is_pair_in(s.to_multiset(), a, b),
    ensures
        0 <= ij.0 < s.len(),
        0 <= ij.1 < s.len(),
        ij.0 != ij.1,
        s[ij.0] == a,
        s[ij.1] == b,
{
    broadcast use group_to_multiset_ensures;
    broadcast use group_multiset_axioms;

    assert(s.contains(a));
    let i = choose|i: int| 0 <= i < s.len() && s[i] == a;
    assert(s.remove(i).to_multiset() == s.to_multiset().remove(s[i]));
    assert(s.remove(i).contains(b));
    let j1 = choose|j1: int| 0 <= j1 < s.remove(i).len() && s.remove(i)[j1] == b;
    s.remove_ensures(i);
    let j = if j1 < i {
        j1
    } else {
        j1 + 1
    };
    assert(s[j] == b);
    (i, j)
}

/// A bound over all index pairs of a sequence is a bound over all pairs of
/// its multiset.
pub proof fn lemma_pairs_from_index_bound(s: Seq<Point>, d: int)
    requires
        forall|i: int, j: int|
            #![trigger s[i], s[j]]
            0 <= i < j < s.len() ==> sq_dist(s[i], s[j]) >= d,
    ensures
        no_pair_closer_than(s.to_multiset(), d),
{
    assert forall|a: Point, b: Point| #[trigger] is_pair_in(s.to_multiset(), a, b) implies sq_dist(
        a,
        b,
    ) >= d by {
        let ij = lemma_multiset_pair_to_indices(s, a, b);
        if ij.0 < ij.1 {
            assert(sq_dist(s[ij.0], s[ij.1]) >= d);
        } else {
            assert(sq_dist(s[ij.1], s[ij.0]) >= d);
            lemma_sq_dist_sym(a, b);
        }
    }
}

/// Validity of the points carries from a sequence to its multiset.
pub proof fn lemma_all_valid_multiset(s: Seq<Point>)
    requires
        all_valid(s),
    ensures
        all_valid_in(s.to_multiset()),
{
    broadcast use group_to_multiset_ensures;

    assert forall|p: Point| #[trigger] s.to_multiset().contains(p) implies valid_point(p) by {
        assert(s.contains(p));
        let i = choose|i: int| 0 <= i < s.len() && s[i] == p;
        assert(valid_point(s[i]));
    }
}

/// Validity of the points carries across a permutation.
pub proof fn lemma_all_valid_of_perm(s1: Seq<Point>, s2: Seq<Point>)
    requires
        all_valid(s1),
        s1.to_multiset() == s2.to_multiset(),
    ensures
        all_valid(s2),
{
    broadcast use group_to_multiset_ensures;

    lemma_all_valid_multiset(s1);
    assert forall|i: int| 0 <= i < s2.len() implies valid_point(#[trigger] s2[i]) by {
        assert(s2.contains(s2[i]));
        assert(s2.to_multiset().contains(s2[i]));
    }
}

/// A pair of either summand is a pair of the sum.
pub proof fn lemma_pair_in_add(m1: Multiset<Point>, m2: Multiset<Point>, a: Point, b: Point)
    requires
        is_pair_in(m1, a, b) || is_pair_in(m2, a, b),
    ensures
        is_pair_in(m1.add(m2), a, b),
{
    broadcast use group_multiset_axioms;

    if is_pair_in(m1, a, b) {
        lemma_counts_from_pair(m1, a, b);
    } else {
        lemma_counts_from_pair(m2, a, b);
    }
    lemma_pair_from_counts(m1.add(m2), a, b);
}

/// Validity of the points survives permuting a range of the sequence.
pub proof fn lemma_all_valid_after_range_perm(
    s_old: Seq<Point>,
    s_new: Seq<Point>,
    lo: int,
    hi: int,
)
    requires
        all_valid(s_old),
        s_new.len() == s_old.len(),
        0 <= lo <= hi <= s_old.len(),
        s_new.subrange(lo, hi).to_multiset() == s_old.subrange(lo, hi).to_multiset(),
        forall|t: int| (0 <= t < lo || hi <= t < s_old.len()) ==> s_new[t] == s_old[t],
    ensures
        all_valid(s_new),
{
    assert forall|i: int| 0 <= i < s_old.subrange(lo, hi).len() implies valid_point(
        #[trigger] s_old.subrange(lo, hi)[i],
    ) by {
        assert(s_old.subrange(lo, hi)[i] == s_old[lo + i]);
    }
    lemma_all_valid_of_perm(s_old.subrange(lo, hi), s_new.subrange(lo, hi));
    assert forall|t: int| 0 <= t < s_new.len() implies valid_point(#[trigger] s_new[t]) by {
        if lo <= t < hi {
            assert(s_new[t] == s_new.subrange(lo, hi)[t - lo]);
            assert(valid_point(s_new.subrange(lo, hi)[t - lo]));
        } else {
            assert(s_new[t] == s_old[t]);
        }
    }
}

// ---------------------------------------------------------------------------
// Laws of the model.
// ---------------------------------------------------------------------------

/// Any two closest pairs of the same point collection are at the same
/// squared distance, whichever solver found them: the pair identities may
/// differ when several pairs tie, the distance cannot.
pub proof fn lemma_closest_pair_distance_unique(m: Multiset<Point>, p: PointPair, q: PointPair)
    requires
        is_closest_pair(m, p),
        is_closest_pair(m, q),
    ensures
        sq_dist(p.0, p.1) == sq_dist(q.0, q.1),
{
    assert(is_pair_in(m, p.0, p.1));
    assert(is_pair_in(m, q.0, q.1));
}

/// With exactly two points, a closest pair is those two points.
pub proof fn lemma_two_point_closest_pair(s: Seq<Point>, p: PointPair)
    requires
        s.len() == 2,
        is_closest_pair(s.to_multiset(), p),
    ensures
        (p.0 == s[0] && p.1 == s[1]) || (p.0 == s[1] && p.1 == s[0]),
{
    let ij = lemma_multiset_pair_to_indices(s, p.0, p.1);
}

/// With all points coincident, a closest pair is at squared distance zero.
pub proof fn lemma_coincident_closest_pair(s: Seq<Point>, p: PointPair)
    requires
        s.len() >= 2,
        forall|i: int| 0 <= i < s.len() ==> #[trigger] s[i] == s[0],
        is_closest_pair(s.to_multiset(), p),
    ensures
        sq_dist(p.0, p.1) == 0,
{
    lemma_seq_pair_in_multiset(s, 0, 1);
    assert(s[1] == s[0]);
    crate::geometry::lemma_sq_dist_self(s[0]);
    assert(sq_dist(s[0], s[1]) == 0);
    assert(is_pair_in(s.to_multiset(), s[0], s[1]));
    assert(sq_dist(s[0], s[1]) >= sq_dist(p.0, p.1));
    lemma_sq_dist_nonneg(p.0, p.1);
}

/// Among the first `m` positions, some position is closest to `q`.
proof fn lemma_min_dist_index(s: Seq<Point>, m: int, q: Point) -> (w: int)
    requires
        1 <= m <= s.len(),
    ensures
        0 <= w < m,
        forall|i: int| 0 <= i < m ==> sq_dist(s[w], q) <= sq_dist(#[trigger] s[i], q),
    decreases m,
{
    if m == 1 {
        0
    } else {
        let w0 = lemma_min_dist_index(s, m - 1, q);
        if sq_dist(s[m - 1], q) < sq_dist(s[w0], q) {
            m - 1
        } else {
            w0
        }
    }
}

/// Any collection of at least two points has a pair of distinct positions
/// realizing the minimal pairwise squared distance.
pub proof fn lemma_exists_closest_index_pair(s: Seq<Point>) -> (ij: (int, int))
    requires
        s.len() >= 2,
    ensures
        0 <= ij.0 < s.len(),
        0 <= ij.1 < s.len(),
        ij.0 != ij.1,
        forall|i: int, j: int|
            #![trigger s[i], s[j]]
            0 <= i < s.len() && 0 <= j < s.len() && i != j ==> sq_dist(s[ij.0], s[ij.1]) <= sq_dist(
                s[i],
                s[j],
            ),
    decreases s.len(),
{
    let n = s.len() as int;
    if n == 2 {
        assert forall|i: int, j: int|
            #![trigger s[i], s[j]]
            0 <= i < s.len() && 0 <= j < s.len() && i != j implies sq_dist(s[0], s[1]) <= sq_dist(
            s[i],
            s[j],
        ) by {
            lemma_sq_dist_sym(s[0], s[1]);
        }
        (0, 1)
    } else {
        let t = s.drop_last();
        let ij = lemma_exists_closest_index_pair(t);
        let q = s[n - 1];
        let w = lemma_min_dist_index(s, n - 1, q);
        assert(t[ij.0] == s[ij.0] && t[ij.1] == s[ij.1]);
        if sq_dist(s[w], q) < sq_dist(s[ij.0], s[ij.1]) {
            assert forall|i: int, j: int|
                #![trigger s[i], s[j]]
                0 <= i < s.len() && 0 <= j < s.len() && i != j implies sq_dist(s[w], s[n - 1])
                <= sq_dist(s[i], s[j]) by {
                if i < n - 1 && j < n - 1 {
                    assert(t[i] == s[i] && t[j] == s[j]);
                    assert(sq_dist(t[ij.0], t[ij.1]) <= sq_dist(t[i], t[j]));
                } else if j == n - 1 {
                    assert(sq_dist(s[w], q) <= sq_dist(s[i], q));
                } else {
                    assert(sq_dist(s[w], q) <= sq_dist(s[j], q));
                    lemma_sq_dist_sym(s[i], s[j]);
                }
            }
            (w, n - 1)
        } else {
            assert forall|i: int, j: int|
                #![trigger s[i], s[j]]
                0 <= i < s.len() && 0 <= j < s.len() && i != j implies sq_dist(s[ij.0], s[ij.1])
                <= sq_dist(s[i], s[j]) by {
                if i < n - 1 && j < n - 1 {
                    assert(t[i] == s[i] && t[j] == s[j]);
                    assert(sq_dist(t[ij.0], t[ij.1]) <= sq_dist(t[i], t[j]));
                } else if j == n - 1 {
                    assert(sq_dist(s[w], q) <= sq_dist(s[i], q));
                } else {
                    assert(sq_dist(s[w], q) <= sq_dist(s[j], q));
                    lemma_sq_dist_sym(s[i], s[j]);
                }
            }
            ij
        }
    }
}

// ---------------------------------------------------------------------------
// Small arithmetic facts about squares.
// ---------------------------------------------------------------------------

proof fn lemma_sq_abs(t: int)
    by (nonlinear_arith)
    ensures
        t * t == (-t) * (-t),
{
}

proof fn lemma_sq_mono(a: int, b: int)
    by (nonlinear_arith)
    requires
        0 <= a <= b,
    ensures
        a * a <= b * b,
{
}

proof fn lemma_between_squares(lo: int, m: int, hi: int)
    by (nonlinear_arith)
    requires
        lo <= m <= hi,
    ensures
        (m - lo) * (m - lo) <= (hi - lo) * (hi - lo),
        (hi - m) * (hi - m) <= (hi - lo) * (hi - lo),
{
}

proof fn lemma_dy_le_sq_dist(a: Point, b: Point)
    ensures
        (a.y - b.y) * (a.y - b.y) <= sq_dist(a, b),
{
    lemma_sq_nonneg(a.x - b.x);
}

proof fn lemma_dx_le_sq_dist(a: Point, b: Point)
    ensures
        (a.x - b.x) * (a.x - b.x) <= sq_dist(a, b),
{
    lemma_sq_nonneg(a.y - b.y);
}

// ---------------------------------------------------------------------------
// Pairs under a restriction of the multiset.
// ---------------------------------------------------------------------------

/// A pair of the whole whose points satisfy the restriction is a pair of the
/// restricted multiset.
pub proof fn lemma_restricted_pair_intro(
    part: Multiset<Point>,
    whole: Multiset<Point>,
    pred: spec_fn(Point) -> bool,
    a: Point,
    b: Point,
)
    requires
        restricted_to(part, whole, pred),
        is_pair_in(whole, a, b),
        pred(a),
        pred(b),
    ensures
        is_pair_in(part, a, b),
{
    broadcast use group_multiset_axioms;

    lemma_counts_from_pair(whole, a, b);
    assert(part.count(a) == whole.count(a));
    assert(part.count(b) == whole.count(b));
    lemma_pair_from_counts(part, a, b);
}

/// A pair of the restricted multiset is a pair of the whole, and its points
/// satisfy the restriction.
pub proof fn lemma_restricted_pair_elim(
    part: Multiset<Point>,
    whole: Multiset<Point>,
    pred: spec_fn(Point) -> bool,
    a: Point,
    b: Point,
)
    requires
        restricted_to(part, whole, pred),
        is_pair_in(part, a, b),
    ensures
        is_pair_in(whole, a, b),
        pred(a),
        pred(b),
{
    broadcast use group_multiset_axioms;

    lemma_counts_from_pair(part, a, b);
    assert(part.count(a) >= 1);
    assert(part.count(b) >= 1);
    assert(pred(a) && pred(b));
    assert(part.count(a) == whole.count(a));
    assert(part.count(b) == whole.count(b));
    lemma_pair_from_counts(whole, a, b);
}

/// The strip membership predicate, as one shared function value.
pub open spec fn strip_pred(mx: int, d: int) -> spec_fn(Point) -> bool {
    |p: Point| in_strip(p, mx, d)
}

/// Both endpoints of a close pair that crosses the splitting line lie in
/// the strip around it.
proof fn lemma_cross_pair_in_strip(a: Point, b: Point, mx: int, d: int)
    requires
        a.x <= mx <= b.x,
        sq_dist(a, b) < d,
    ensures
        in_strip(a, mx, d),
        in_strip(b, mx, d),
{
    lemma_between_squares(a.x as int, mx, b.x as int);
    lemma_dx_le_sq_dist(a, b);
    lemma_sq_abs(a.x - b.x);
    lemma_sq_abs(a.x - mx);
}

// ---------------------------------------------------------------------------
// The divide-and-conquer combine step.
//
// `left` and `right` are the two halves after recursion, split along the
// vertical line `x == mx`; `delta` is the smaller of the two halves'
// minimal squared distances, realized by `best`; `strip` holds exactly the
// points of the range within the strip around the line; `improved` is what
// the strip scan returned against the bound `delta`.
// ---------------------------------------------------------------------------

pub proof fn lemma_combine_closest(
    left: Multiset<Point>,
    right: Multiset<Point>,
    mx: int,
    delta: int,
    best: PointPair,
    strip: Multiset<Point>,
    improved: Option<PointPair>,
)
    requires
        no_pair_closer_than(left, delta),
        no_pair_closer_than(right, delta),
        is_pair_in(left.add(right), best.0, best.1),
        sq_dist(best.0, best.1) == delta,
        forall|p: Point| #[trigger] left.contains(p) ==> p.x <= mx,
        forall|p: Point| #[trigger] right.contains(p) ==> p.x >= mx,
        restricted_to(strip, left.add(right), strip_pred(mx, delta)),
        match improved {
            Some(p) => is_pair_in(strip, p.0, p.1) && sq_dist(p.0, p.1) < delta
                && no_pair_closer_than(strip, sq_dist(p.0, p.1)),
            None => no_pair_closer_than(strip, delta),
        },
    ensures
        is_closest_pair(
            left.add(right),
            match improved {
                Some(p) => p,
                None => best,
            },
        ),
{
    broadcast use group_multiset_axioms;

    let whole = left.add(right);
    let result = match improved {
        Some(p) => p,
        None => best,
    };
    let rsq = sq_dist(result.0, result.1);
    let pred = strip_pred(mx, delta);
    match improved {
        Some(p) => {
            lemma_restricted_pair_elim(strip, whole, pred, p.0, p.1);
        },
        None => {},
    }
    assert(is_pair_in(whole, result.0, result.1));
    assert(rsq <= delta);
    assert forall|a: Point, b: Point| #[trigger] is_pair_in(whole, a, b) implies sq_dist(a, b)
        >= rsq by {
        lemma_counts_from_pair(whole, a, b);
        if sq_dist(a, b) < delta {
            if a == b {
                if left.count(a) >= 2 {
                    lemma_pair_from_counts(left, a, b);
                    assert(sq_dist(a, b) >= delta);
                } else if right.count(a) >= 2 {
                    lemma_pair_from_counts(right, a, b);
                    assert(sq_dist(a, b) >= delta);
                } else {
                    assert(left.count(a) >= 1 && right.count(a) >= 1);
                    assert(left.contains(a) && right.contains(a));
                    assert(a.x == mx);
                    crate::geometry::lemma_sq_dist_self(a);
                    assert((a.x - mx) * (a.x - mx) == 0) by (nonlinear_arith)
                        requires
                            a.x == mx,
                    ;
                    assert(pred(a));
                    lemma_restricted_pair_intro(strip, whole, pred, a, b);
                    match improved {
                        Some(p) => {
                            assert(sq_dist(a, b) >= rsq);
                        },
                        None => {
                            assert(sq_dist(a, b) >= delta);
                        },
                    }
                }
            } else {
                if left.count(a) >= 1 && left.count(b) >= 1 {
                    lemma_pair_from_counts(left, a, b);
                    assert(sq_dist(a, b) >= delta);
                } else if right.count(a) >= 1 && right.count(b) >= 1 {
                    lemma_pair_from_counts(right, a, b);
                    assert(sq_dist(a, b) >= delta);
                } else if left.count(a) >= 1 && right.count(b) >= 1 {
                    assert(left.contains(a) && right.contains(b));
                    lemma_cross_pair_in_strip(a, b, mx, delta);
                    assert(pred(a) && pred(b));
                    lemma_restricted_pair_intro(strip, whole, pred, a, b);
                    match improved {
                        Some(p) => {
                            assert(sq_dist(a, b) >= rsq);
                        },
                        None => {
                            assert(sq_dist(a, b) >= delta);
                        },
                    }
                } else {
                    assert(left.count(b) >= 1 && right.count(a) >= 1);
                    assert(left.contains(b) && right.contains(a));
                    lemma_sq_dist_sym(a, b);
                    lemma_cross_pair_in_strip(b, a, mx, delta);
                    assert(pred(a) && pred(b));
                    lemma_restricted_pair_intro(strip, whole, pred, a, b);
                    match improved {
                        Some(p) => {
                            assert(sq_dist(a, b) >= rsq);
                        },
                        None => {
                            assert(sq_dist(a, b) >= delta);
                        },
                    }
                }
            }
        }
    }
}

// ---------------------------------------------------------------------------
// Shared executable building blocks of the divide-and-conquer solvers.
// ---------------------------------------------------------------------------

/// Finds the minimum distance in a 'strip' of points.
///
/// The strip holds the points within x-distance of the current median,
/// sorted by their y-coordinates. Each point is compared only against the
/// points after it whose y-distance is below the current bound; the bound
/// tightens as closer pairs are found, which is what keeps the scan linear
/// in practice.
/// # Returns
/// Function returns `None` if there are no points better than the
/// `current_minimum` provided.
pub fn find_minimum_in_strip(points: &Vec<Point>, current_minimum: Distance) -> (r: Option<
    PointPair,
>)
    requires
        all_valid(points@),
        sorted_by_y(points@),
    ensures
        match r {
            Some(p) => {
                &&& is_pair_in(points@.to_multiset(), p.0, p.1)
                &&& valid_point(p.0) && valid_point(p.1)
                &&& sq_dist(p.0, p.1) < current_minimum.0
                &&& no_pair_closer_than(points@.to_multiset(), sq_dist(p.0, p.1))
            },
            None => no_pair_closer_than(points@.to_multiset(), current_minimum.0 as int),
        },
{
    let n = points.len();
    let mut minimum_distance = current_minimum;
    let mut minimum_pair: Option<PointPair> = None;
    let mut i: usize = 0;
    while i < n
        invariant
            i <= n,
            n == points@.len(),
            all_valid(points@),
            sorted_by_y(points@),
            minimum_distance.0 <= current_minimum.0,
            match minimum_pair {
                Some(p) => {
                    &&& is_pair_in(points@.to_multiset(), p.0, p.1)
                    &&& valid_point(p.0) && valid_point(p.1)
                    &&& sq_dist(p.0, p.1) == minimum_distance.0
                    &&& minimum_distance.0 < current_minimum.0
                },
                None => minimum_distance.0 == current_minimum.0,
            },
            forall|i1: int, j1: int|
                #![trigger points@[i1], points@[j1]]
                0 <= i1 < j1 < n && i1 < i ==> sq_dist(points@[i1], points@[j1])
                    >= minimum_distance.0,
        decreases n - i,
    {
        let mut j: usize = i + 1;
        while j < n
            invariant
                i < j <= n,
                i < n,
                n == points@.len(),
                all_valid(points@),
                sorted_by_y(points@),
                minimum_distance.0 <= current_minimum.0,
                match minimum_pair {
                    Some(p) => {
                        &&& is_pair_in(points@.to_multiset(), p.0, p.1)
                        &&& valid_point(p.0) && valid_point(p.1)
                        &&& sq_dist(p.0, p.1) == minimum_distance.0
                        &&& minimum_distance.0 < current_minimum.0
                    },
                    None => minimum_distance.0 == current_minimum.0,
                },
                forall|i1: int, j1: int|
                    #![trigger points@[i1], points@[j1]]
                    0 <= i1 < j1 < n && i1 < i ==> sq_dist(points@[i1], points@[j1])
                        >= minimum_distance.0,
                forall|j1: int|
                    i < j1 < j ==> sq_dist(points@[i as int], #[trigger] points@[j1])
                        >= minimum_distance.0,
            ensures
                i < j <= n,
                minimum_distance.0 <= current_minimum.0,
                match minimum_pair {
                    Some(p) => {
                        &&& is_pair_in(points@.to_multiset(), p.0, p.1)
                        &&& valid_point(p.0) && valid_point(p.1)
                        &&& sq_dist(p.0, p.1) == minimum_distance.0
                        &&& minimum_distance.0 < current_minimum.0
                    },
                    None => minimum_distance.0 == current_minimum.0,
                },
                forall|i1: int, j1: int|
                    #![trigger points@[i1], points@[j1]]
                    0 <= i1 < j1 < n && i1 < i ==> sq_dist(points@[i1], points@[j1])
                        >= minimum_distance.0,
                forall|j1: int|
                    i < j1 < n ==> sq_dist(points@[i as int], #[trigger] points@[j1])
                        >= minimum_distance.0,
            decreases n - j,
        {
            proof {
                assert(valid_point(points@[i as int]));
                assert(valid_point(points@[j as int]));
            }
            let dy: i64 = points[j].y - points[i].y;
            proof {
                lemma_sq_diff_bound(points@[j as int].y as int, points@[i as int].y as int);
            }
            if ((dy * dy) as u64) >= minimum_distance.0 {
                proof {
                    assert forall|j1: int| i < j1 < n implies sq_dist(
                        points@[i as int],
                        #[trigger] points@[j1],
                    ) >= minimum_distance.0 by {
                        if j1 >= j {
                            let a = points@[i as int];
                            let c = points@[j1];
                            assert(points@[j as int].y <= c.y);
                            lemma_sq_mono(dy as int, c.y - a.y);
                            lemma_sq_abs(a.y - c.y);
                            lemma_dy_le_sq_dist(a, c);
                        }
                    }
                }
                break ;
            }
            let d = points[i].distance_to(points[j]);
            if d.0 < minimum_distance.0 {
                minimum_distance = d;
                minimum_pair = Some(PointPair(points[i], points[j]));
                proof {
                    lemma_seq_pair_in_multiset(points@, i as int, j as int);
                }
            }
            j += 1;
        }
        i += 1;
    }
    proof {
        lemma_pairs_from_index_bound(points@, minimum_distance.0 as int);
    }
    minimum_pair
}

/// The closest pair among the points at positions `[lo, hi)`, by checking
/// every pair of positions.
pub(crate) fn closest_in_range_bruteforce(points: &Vec<Point>, lo: usize, hi: usize) -> (r: PointPair)
    requires
        lo < hi <= points@.len(),
        hi - lo >= 2,
        all_valid(points@),
    ensures
        is_closest_pair(points@.subrange(lo as int, hi as int).to_multiset(), r),
        valid_point(r.0),
        valid_point(r.1),
{
    let ghost sub = points@.subrange(lo as int, hi as int);
    let mut best = PointPair(points[lo], points[lo + 1]);
    let mut best_d = best.distance();
    proof {
        lemma_seq_pair_in_multiset(sub, 0, 1);
    }
    let mut i: usize = lo;
    while i < hi
        invariant
            lo <= i <= hi <= points@.len(),
            hi - lo >= 2,
            all_valid(points@),
            sub == points@.subrange(lo as int, hi as int),
            is_pair_in(sub.to_multiset(), best.0, best.1),
            valid_point(best.0),
            valid_point(best.1),
            best_d.0 == sq_dist(best.0, best.1),
            forall|i1: int, j1: int|
                #![trigger points@[i1], points@[j1]]
                lo <= i1 < j1 < hi && i1 < i ==> sq_dist(points@[i1], points@[j1]) >= best_d.0,
        decreases hi - i,
    {
        let mut j: usize = i + 1;
        while j < hi
            invariant
                lo <= i < hi <= points@.len(),
                i < j <= hi,
                hi - lo >= 2,
                all_valid(points@),
                sub == points@.subrange(lo as int, hi as int),
                is_pair_in(sub.to_multiset(), best.0, best.1),
                valid_point(best.0),
                valid_point(best.1),
                best_d.0 == sq_dist(best.0, best.1),
                forall|i1: int, j1: int|
                    #![trigger points@[i1], points@[j1]]
                    lo <= i1 < j1 < hi && i1 < i ==> sq_dist(points@[i1], points@[j1]) >= best_d.0,
                forall|j1: int|
                    i < j1 < j ==> sq_dist(points@[i as int], #[trigger] points@[j1]) >= best_d.0,
            decreases hi - j,
        {
            proof {
                assert(valid_point(points@[i as int]));
                assert(valid_point(points@[j as int]));
            }
            let d = points[i].distance_to(points[j]);
            if d.0 < best_d.0 {
                best_d = d;
                best = PointPair(points[i], points[j]);
                proof {
                    assert(sub[i - lo] == points@[i as int]);
                    assert(sub[j - lo] == points@[j as int]);
                    lemma_seq_pair_in_multiset(sub, i - lo, j - lo);
                }
            }
            j += 1;
        }
        i += 1;
    }
    proof {
        assert forall|t1: int, t2: int|
            #![trigger sub[t1], sub[t2]]
            0 <= t1 < t2 < sub.len() implies sq_dist(sub[t1], sub[t2]) >= best_d.0 by {
            assert(sub[t1] == points@[lo + t1]);
            assert(sub[t2] == points@[lo + t2]);
        }
        lemma_pairs_from_index_bound(sub, best_d.0 as int);
    }
    best
}

/// Performs a brute-force calculation to find the closest pair of points.
///
/// This runs in quadratic time, so it is only used for the base case of the
/// recursive algorithms, and as the reference the fast solvers are checked
/// against.
pub fn find_minimum_bruteforce(points: &Vec<Point>) -> (r: PointPair)
    requires
        points@.len() >= 2,
        all_valid(points@),
    ensures
        is_closest_pair(points@.to_multiset(), r),
        valid_point(r.0),
        valid_point(r.1),
{
    let n = points.len();
    let r = closest_in_range_bruteforce(points, 0, n);
    proof {
        assert(points@.subrange(0, n as int) =~= points@);
    }
    r
}

/// Collects the points of positions `[lo, hi)` that lie in the strip of
/// half-width-squared `delta` around the vertical line `x == mx`.
pub(crate) fn collect_strip(points: &Vec<Point>, lo: usize, hi: usize, mx: i64, delta: u64) -> (strip: Vec<
    Point,
>)
    requires
        lo <= hi <= points@.len(),
        all_valid(points@),
        -MAX_ABS_COORD <= mx <= MAX_ABS_COORD,
    ensures
        restricted_to(
            strip@.to_multiset(),
            points@.subrange(lo as int, hi as int).to_multiset(),
            strip_pred(mx as int, delta as int),
        ),
        all_valid(strip@),
        sorted_by_y(points@.subrange(lo as int, hi as int)) ==> sorted_by_y(strip@),
{
    let ghost pred = strip_pred(mx as int, delta as int);
    let mut strip: Vec<Point> = Vec::new();
    let mut k = lo;
    proof {
        broadcast use group_to_multiset_ensures;
        broadcast use group_multiset_axioms;

        let ghost pre0 = points@.subrange(lo as int, lo as int);
        assert forall|x: Point| #[trigger] strip@.to_multiset().count(x) == (if pred(x) {
            pre0.to_multiset().count(x)
        } else {
            0nat
        }) by {
            assert(!strip@.contains(x));
            assert(!pre0.contains(x));
        }
    }
    while k < hi
        invariant
            lo <= k <= hi <= points@.len(),
            all_valid(points@),
            all_valid(strip@),
            -MAX_ABS_COORD <= mx <= MAX_ABS_COORD,
            pred == strip_pred(mx as int, delta as int),
            restricted_to(
                strip@.to_multiset(),
                points@.subrange(lo as int, k as int).to_multiset(),
                pred,
            ),
            sorted_by_y(points@.subrange(lo as int, hi as int)) ==> {
                &&& sorted_by_y(strip@)
                &&& forall|u: int, t: int|
                    0 <= u < strip@.len() && k <= t < hi ==> (#[trigger] strip@[u]).y <= (
                    #[trigger] points@[t]).y
            },
        decreases hi - k,
    {
        proof {
            if sorted_by_y(points@.subrange(lo as int, hi as int)) {
                let sub = points@.subrange(lo as int, hi as int);
                assert forall|t: int| k < t < hi implies (#[trigger] points@[t]).y >= points@[k as int].y by {
                    assert(sub[k - lo] == points@[k as int]);
                    assert(sub[t - lo] == points@[t]);
                }
            }
        }
        proof {
            assert(valid_point(points@[k as int]));
        }
        let p = points[k];
        let dx: i64 = p.x - mx;
        proof {
            lemma_sq_diff_bound(p.x as int, mx as int);
        }
        let ghost pre = points@.subrange(lo as int, k as int);
        let ghost post = points@.subrange(lo as int, k as int + 1);
        let ghost old_strip = strip@;
        proof {
            broadcast use group_to_multiset_ensures;
            broadcast use group_multiset_axioms;

            assert(post =~= pre.push(points@[k as int]));
            assert(post.to_multiset() == pre.to_multiset().insert(points@[k as int]));
        }
        if ((dx * dx) as u64) < delta {
            strip.push(p);
            proof {
                broadcast use group_to_multiset_ensures;
                broadcast use group_multiset_axioms;

                assert(in_strip(p, mx as int, delta as int));
                assert(pred(p));
                assert(strip@.to_multiset() == old_strip.to_multiset().insert(p));
                assert forall|x: Point| #[trigger] strip@.to_multiset().count(x) == (if pred(x) {
                    post.to_multiset().count(x)
                } else {
                    0nat
                }) by {
                    assert(old_strip.to_multiset().count(x) == (if pred(x) {
                        pre.to_multiset().count(x)
                    } else {
                        0nat
                    }));
                }
            }
        } else {
            proof {
                broadcast use group_multiset_axioms;

                assert(!in_strip(p, mx as int, delta as int));
                assert(!pred(p));
                assert forall|x: Point| #[trigger] strip@.to_multiset().count(x) == (if pred(x) {
                    post.to_multiset().count(x)
                } else {
                    0nat
                }) by {
                    assert(strip@.to_multiset().count(x) == (if pred(x) {
                        pre.to_multiset().count(x)
                    } else {
                        0nat
                    }));
                }
            }
        }
        k += 1;
    }
    strip
}

// ---------------------------------------------------------------------------
// Sorting, through the crates the solvers rely on.
// ---------------------------------------------------------------------------

/// Relies on itertools' `Itertools::sorted_by_key`: the output holds the
/// same elements as the input, sorted in ascending key order.
#[verifier::external_body]
pub(crate) fn sort_by_y_key(points: Vec<Point>) -> (r: Vec<Point>)
    ensures
        r@.to_multiset() == points@.to_multiset(),
        sorted_by_y(r@),
{
    points.into_iter().sorted_by_key(|p| p.y).collect()
}

/// Relies on `slice::sort_unstable_by_key`: sorts in place in ascending key
/// order; the elements are a permutation of the input.
#[verifier::external_body]
pub(crate) fn sort_by_x_in_place(points: &mut Vec<Point>)
    ensures
        final(points)@.to_multiset() == old(points)@.to_multiset(),
        sorted_by_x(final(points)@),
{
    points.sort_unstable_by_key(|p| p.x)
}

} // verus!

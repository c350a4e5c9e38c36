use vstd::prelude::*;
use vstd::multiset::Multiset;
use vstd::multiset::group_multiset_axioms;
use vstd::seq_lib::group_to_multiset_ensures;
use vstd::seq_lib::lemma_multiset_commutative;
use vstd::pervasive::VecAdditionalExecFns;
use crate::closest::sorted_by_x;
use crate::geometry::Point;

verus! {

/// The element at `k` splits positions `[lo, hi)` by x-coordinate: smaller
/// or equal x before it, greater or equal x after it.
pub open spec fn partitioned_at(s: Seq<Point>, lo: int, hi: int, k: int) -> bool {
    &&& forall|i: int| lo <= i < k ==> (#[trigger] s[i]).x <= s[k].x
    &&& forall|i: int| k < i < hi ==> (#[trigger] s[i]).x >= s[k].x
}

/// Lexicographic order on points, x-coordinate major. This is the order the
/// median-of-three pivot choice goes by.
pub open spec fn lex_lt(a: Point, b: Point) -> bool {
    a.x < b.x || (a.x == b.x && a.y < b.y)
}

/// The index, among `f` (first), `m` (middle) and `l` (last), that
/// median-of-three selects: the middle where it is strictly between the two
/// others, else the first where it is, else the last.
pub open spec fn median_of_three(s: Seq<Point>, f: int, m: int, l: int) -> int {
    if (lex_lt(s[f], s[m]) && lex_lt(s[m], s[l])) || (lex_lt(s[l], s[m]) && lex_lt(s[m], s[f])) {
        m
    } else if (lex_lt(s[m], s[f]) && lex_lt(s[f], s[l])) || (lex_lt(s[l], s[f]) && lex_lt(
        s[f],
        s[m],
    )) {
        0 + f
    } else {
        l
    }
}

fn lex_less(a: &Point, b: &Point) -> (r: bool)
    ensures
        r == lex_lt(*a, *b),
{
    a.x < b.x || (a.x == b.x && a.y < b.y)
}

/// All elements of the multiset have x-coordinate at most `b`.
pub open spec fn all_x_at_most(m: Multiset<Point>, b: int) -> bool {
    forall|p: Point| #[trigger] m.contains(p) ==> p.x <= b
}

/// All elements of the multiset have x-coordinate at least `b`.
pub open spec fn all_x_at_least(m: Multiset<Point>, b: int) -> bool {
    forall|p: Point| #[trigger] m.contains(p) ==> p.x >= b
}

/// An upper x-bound on every position carries to the multiset.
pub proof fn lemma_x_at_most_multiset(s: Seq<Point>, b: int)
    requires
        forall|i: int| 0 <= i < s.len() ==> (#[trigger] s[i]).x <= b,
    ensures
        all_x_at_most(s.to_multiset(), b),
{
    broadcast use group_to_multiset_ensures;

    assert forall|p: Point| #[trigger] s.to_multiset().contains(p) implies p.x <= b by {
        assert(s.contains(p));
        let i = choose|i: int| 0 <= i < s.len() && s[i] == p;
        assert(s[i].x <= b);
    }
}

/// A lower x-bound on every position carries to the multiset.
pub proof fn lemma_x_at_least_multiset(s: Seq<Point>, b: int)
    requires
        forall|i: int| 0 <= i < s.len() ==> (#[trigger] s[i]).x >= b,
    ensures
        all_x_at_least(s.to_multiset(), b),
{
    broadcast use group_to_multiset_ensures;

    assert forall|p: Point| #[trigger] s.to_multiset().contains(p) implies p.x >= b by {
        assert(s.contains(p));
        let i = choose|i: int| 0 <= i < s.len() && s[i] == p;
        assert(s[i].x >= b);
    }
}

/// An upper x-bound on the multiset carries back to every position.
pub proof fn lemma_x_at_most_seq(s: Seq<Point>, b: int)
    requires
        all_x_at_most(s.to_multiset(), b),
    ensures
        forall|i: int| 0 <= i < s.len() ==> (#[trigger] s[i]).x <= b,
{
    broadcast use group_to_multiset_ensures;

    assert forall|i: int| 0 <= i < s.len() implies (#[trigger] s[i]).x <= b by {
        assert(s.contains(s[i]));
        assert(s.to_multiset().contains(s[i]));
    }
}

/// A lower x-bound on the multiset carries back to every position.
pub proof fn lemma_x_at_least_seq(s: Seq<Point>, b: int)
    requires
        all_x_at_least(s.to_multiset(), b),
    ensures
        forall|i: int| 0 <= i < s.len() ==> (#[trigger] s[i]).x >= b,
{
    broadcast use group_to_multiset_ensures;

    assert forall|i: int| 0 <= i < s.len() implies (#[trigger] s[i]).x >= b by {
        assert(s.contains(s[i]));
        assert(s.to_multiset().contains(s[i]));
    }
}

/// Exchanging two positions keeps the multiset of elements.
pub proof fn lemma_seq_swap_multiset(s: Seq<Point>, i: int, j: int)
    requires
        0 <= i < s.len(),
        0 <= j < s.len(),
    ensures
        s.update(i, s[j]).update(j, s[i]).to_multiset() == s.to_multiset(),
{
    broadcast use group_to_multiset_ensures;
    broadcast use group_multiset_axioms;

    let s1 = s.update(i, s[j]);
    let s2 = s1.update(j, s[i]);
    if i == j {
        assert(s2 =~= s);
    } else {
        assert(s.contains(s[i]));
        assert(s.contains(s[j]));
        assert(s1.to_multiset() == s.to_multiset().insert(s[j]).remove(s[i]));
        assert(s1[j] == s[j]);
        assert(s2.to_multiset() == s1.to_multiset().insert(s[i]).remove(s[j]));
        assert(s2.to_multiset() =~= s.to_multiset());
    }
}

/// A sequence splits at any midpoint into the sum of its parts' multisets.
pub proof fn lemma_subrange_split_multiset(s: Seq<Point>, lo: int, m: int, hi: int)
    requires
        0 <= lo <= m <= hi <= s.len(),
    ensures
        s.subrange(lo, hi).to_multiset() == s.subrange(lo, m).to_multiset().add(
            s.subrange(m, hi).to_multiset(),
        ),
{
    assert(s.subrange(lo, hi) =~= s.subrange(lo, m) + s.subrange(m, hi));
    lemma_multiset_commutative(s.subrange(lo, m), s.subrange(m, hi));
}

/// How many points of the sequence satisfy the predicate.
spec fn count_matching(s: Seq<Point>, pred: spec_fn(Point) -> bool) -> int
    decreases s.len(),
{
    if s.len() == 0 {
        0
    } else {
        count_matching(s.drop_last(), pred) + if pred(s.last()) {
            1int
        } else {
            0int
        }
    }
}

proof fn lemma_count_matching_bounds(s: Seq<Point>, pred: spec_fn(Point) -> bool)
    ensures
        0 <= count_matching(s, pred) <= s.len(),
    decreases s.len(),
{
    if s.len() > 0 {
        lemma_count_matching_bounds(s.drop_last(), pred);
    }
}

proof fn lemma_count_matching_remove(s: Seq<Point>, pred: spec_fn(Point) -> bool, i: int)
    requires
        0 <= i < s.len(),
    ensures
        count_matching(s, pred) == count_matching(s.remove(i), pred) + if pred(s[i]) {
            1int
        } else {
            0int
        },
    decreases s.len(),
{
    if i == s.len() - 1 {
        assert(s.remove(i) =~= s.drop_last());
    } else {
        let s1 = s.drop_last();
        lemma_count_matching_remove(s1, pred, i);
        assert(s.remove(i).drop_last() =~= s1.remove(i));
        assert(s.remove(i).last() == s.last());
        assert(s.remove(i).len() > 0);
    }
}

proof fn lemma_count_matching_perm(s: Seq<Point>, t: Seq<Point>, pred: spec_fn(Point) -> bool)
    requires
        s.to_multiset() == t.to_multiset(),
    ensures
        count_matching(s, pred) == count_matching(t, pred),
    decreases s.len(),
{
    broadcast use group_to_multiset_ensures;
    broadcast use group_multiset_axioms;

    assert(s.len() == s.to_multiset().len());
    assert(t.len() == t.to_multiset().len());
    if s.len() > 0 {
        let e = s.last();
        assert(s.contains(e));
        assert(t.to_multiset().contains(e));
        assert(t.contains(e));
        let i = choose|i: int| 0 <= i < t.len() && t[i] == e;
        assert(s.remove(s.len() - 1).to_multiset() == s.to_multiset().remove(e));
        assert(s.remove(s.len() - 1) =~= s.drop_last());
        assert(t.remove(i).to_multiset() == t.to_multiset().remove(e));
        lemma_count_matching_perm(s.drop_last(), t.remove(i), pred);
        lemma_count_matching_remove(t, pred, i);
    }
}

proof fn lemma_count_matching_prefix(s: Seq<Point>, pred: spec_fn(Point) -> bool, m: int)
    requires
        0 <= m <= s.len(),
        forall|i: int| 0 <= i < m ==> pred(#[trigger] s[i]),
    ensures
        count_matching(s, pred) >= m,
    decreases s.len(),
{
    if s.len() > 0 {
        if m == s.len() {
            lemma_count_matching_prefix(s.drop_last(), pred, m - 1);
        } else {
            lemma_count_matching_prefix(s.drop_last(), pred, m);
        }
    }
}

proof fn lemma_count_matching_suffix(s: Seq<Point>, pred: spec_fn(Point) -> bool, m: int)
    requires
        0 <= m <= s.len(),
        forall|i: int| m <= i < s.len() ==> !pred(#[trigger] s[i]),
    ensures
        count_matching(s, pred) <= m,
    decreases s.len(),
{
    if s.len() == 0 {
    } else if m == s.len() {
        lemma_count_matching_bounds(s, pred);
    } else {
        lemma_count_matching_suffix(s.drop_last(), pred, m);
    }
}

/// The point landing at the partition index carries the x-coordinate of the
/// true k-th order statistic: cross-checking a partitioned buffer against
/// any fully x-sorted arrangement of the same points yields the same value
/// at index `k`.
pub proof fn lemma_partition_point_is_order_statistic(t: Seq<Point>, u: Seq<Point>, k: int)
    requires
        t.to_multiset() == u.to_multiset(),
        0 <= k < t.len(),
        partitioned_at(t, 0, t.len() as int, k),
        sorted_by_x(u),
    ensures
        t[k].x == u[k].x,
{
    broadcast use group_to_multiset_ensures;

    assert(t.len() == t.to_multiset().len());
    assert(u.len() == u.to_multiset().len());
    let v = t[k].x as int;
    let le = |p: Point| p.x <= v;
    let lt = |p: Point| p.x < v;
    assert forall|i: int| 0 <= i < k + 1 implies le(#[trigger] t[i]) by {
        assert(partitioned_at(t, 0, t.len() as int, k));
    }
    lemma_count_matching_prefix(t, le, k + 1);
    lemma_count_matching_perm(t, u, le);
    if u[k].x > v {
        assert forall|i: int| k <= i < u.len() implies !le(#[trigger] u[i]) by {
            assert(u[k].x <= u[i].x);
        }
        lemma_count_matching_suffix(u, le, k);
        assert(false);
    }
    assert forall|i: int| k <= i < t.len() implies !lt(#[trigger] t[i]) by {
        assert(partitioned_at(t, 0, t.len() as int, k));
    }
    lemma_count_matching_suffix(t, lt, k);
    lemma_count_matching_perm(t, u, lt);
    if u[k].x < v {
        assert forall|i: int| 0 <= i < k + 1 implies lt(#[trigger] u[i]) by {
            assert(u[i].x <= u[k].x);
        }
        lemma_count_matching_prefix(u, lt, k + 1);
        assert(false);
    }
}

/// Running the partitioner again for the same `k` cannot move the value at
/// `k`: any two arrangements of the same points, each partitioned at `k`,
/// agree on the x-coordinate found there. The arrangement as a whole may
/// differ; the order statistic is pinned.
pub proof fn lemma_partition_idempotent_at(t1: Seq<Point>, t2: Seq<Point>, k: int)
    requires
        t1.to_multiset() == t2.to_multiset(),
        0 <= k < t1.len(),
        partitioned_at(t1, 0, t1.len() as int, k),
        partitioned_at(t2, 0, t2.len() as int, k),
    ensures
        t1[k].x == t2[k].x,
{
    broadcast use group_to_multiset_ensures;

    assert(t1.len() == t1.to_multiset().len());
    assert(t2.len() == t2.to_multiset().len());
    if t1[k].x < t2[k].x {
        let v = t1[k].x as int;
        let le = |p: Point| p.x <= v;
        assert forall|i: int| 0 <= i < k + 1 implies le(#[trigger] t1[i]) by {
            assert(partitioned_at(t1, 0, t1.len() as int, k));
        }
        lemma_count_matching_prefix(t1, le, k + 1);
        lemma_count_matching_perm(t1, t2, le);
        assert forall|i: int| k <= i < t2.len() implies !le(#[trigger] t2[i]) by {
            assert(partitioned_at(t2, 0, t2.len() as int, k));
            assert(t2[i].x >= t2[k].x);
        }
        lemma_count_matching_suffix(t2, le, k);
        assert(false);
    }
    if t2[k].x < t1[k].x {
        let v = t2[k].x as int;
        let le = |p: Point| p.x <= v;
        assert forall|i: int| 0 <= i < k + 1 implies le(#[trigger] t2[i]) by {
            assert(partitioned_at(t2, 0, t2.len() as int, k));
        }
        lemma_count_matching_prefix(t2, le, k + 1);
        lemma_count_matching_perm(t2, t1, le);
        assert forall|i: int| k <= i < t1.len() implies !le(#[trigger] t1[i]) by {
            assert(partitioned_at(t1, 0, t1.len() as int, k));
            assert(t1[i].x >= t1[k].x);
        }
        lemma_count_matching_suffix(t1, le, k);
        assert(false);
    }
}

/// Exchanges the points at two positions.
fn swap_points(points: &mut Vec<Point>, i: usize, j: usize)
    requires
        i < old(points)@.len(),
        j < old(points)@.len(),
    ensures
        final(points)@ == old(points)@.update(i as int, old(points)@[j as int]).update(
            j as int,
            old(points)@[i as int],
        ),
        final(points)@.to_multiset() == old(points)@.to_multiset(),
        final(points)@.len() == old(points)@.len(),
{
    let a = points[i];
    let b = points[j];
    points.set(i, b);
    points.set(j, a);
    proof {
        lemma_seq_swap_multiset(old(points)@, i as int, j as int);
    }
}

fn x_below(p: &Point, bound: i64) -> (r: bool)
    ensures
        r == (p.x < bound),
{
    p.x < bound
}

/// Relies on itertools' `partition`: it reorders the elements of the slice,
/// by swaps, so that all elements satisfying the predicate come first, and
/// returns how many do.
#[verifier::external_body]
fn partition_below_x(points: &mut Vec<Point>, lo: usize, hi: usize, pivot_x: i64) -> (r: usize)
    requires
        lo <= hi <= old(points)@.len(),
    ensures
        r <= hi - lo,
        final(points)@.len() == old(points)@.len(),
        final(points)@.subrange(lo as int, hi as int).to_multiset() == old(points)@.subrange(
            lo as int,
            hi as int,
        ).to_multiset(),
        forall|t: int|
            (0 <= t < lo || hi <= t < old(points)@.len()) ==> final(points)@[t] == old(points)@[t],
        forall|t: int| lo <= t < lo + r ==> (#[trigger] final(points)@[t]).x < pivot_x,
        forall|t: int| lo + r <= t < hi ==> (#[trigger] final(points)@[t]).x >= pivot_x,
{
    itertools::partition(points[lo..hi].iter_mut(), |p| x_below(p, pivot_x))
}

/// Finds the pivot among positions `[lo, hi)` using the median-of-three
/// strategy over the first, middle and last element of the range, and
/// returns its absolute index.
fn find_pivot_in(points: &Vec<Point>, lo: usize, hi: usize) -> (r: usize)
    requires
        lo < hi <= points@.len(),
    ensures
        lo <= r < hi,
        r as int == median_of_three(
            points@,
            lo as int,
            lo as int + (hi - lo - 1) as int / 2,
            hi as int - 1,
        ),
{
    let m_idx = lo + (hi - lo - 1) / 2;
    let f = points[lo];
    let m = points[m_idx];
    let l = points[hi - 1];
    if (lex_less(&f, &m) && lex_less(&m, &l)) || (lex_less(&l, &m) && lex_less(&m, &f)) {
        // Middle
        m_idx
    } else if (lex_less(&m, &f) && lex_less(&f, &l)) || (lex_less(&l, &f) && lex_less(&f, &m)) {
        // First
        lo
    } else {
        // Last
        hi - 1
    }
}

/// Finds a pivot using the median-of-three strategy.
///
/// From the points provided, this function picks the median value of the
/// first, middle and last point and returns the index of the chosen pivot.
pub fn find_pivot(points: &Vec<Point>) -> (r: usize)
    requires
        points@.len() >= 1,
    ensures
        r < points@.len(),
        r as int == median_of_three(
            points@,
            0,
            (points@.len() - 1) as int / 2,
            points@.len() - 1,
        ),
{
    find_pivot_in(points, 0, points.len())
}

/// This is the inner function that performs the QuickSelect, on the range
/// of positions `[lo, hi)`.
pub(crate) fn quick_select_points_inner(points: &mut Vec<Point>, lo: usize, hi: usize, position: usize)
    requires
        lo <= position < hi <= old(points)@.len(),
    ensures
        final(points)@.len() == old(points)@.len(),
        final(points)@.subrange(lo as int, hi as int).to_multiset() == old(points)@.subrange(
            lo as int,
            hi as int,
        ).to_multiset(),
        forall|t: int|
            (0 <= t < lo || hi <= t < old(points)@.len()) ==> final(points)@[t] == old(points)@[t],
        partitioned_at(final(points)@, lo as int, hi as int, position as int),
    decreases hi - lo,
{
    let ghost s0 = points@;
    let p_idx = find_pivot_in(points, lo, hi);
    let pivot_x = points[p_idx].x;
    swap_points(points, p_idx, hi - 1);
    let ghost s1 = points@;
    proof {
        lemma_seq_swap_multiset(s0.subrange(lo as int, hi as int), p_idx - lo, hi - 1 - lo);
        assert(s1.subrange(lo as int, hi as int) =~= s0.subrange(lo as int, hi as int).update(
            p_idx - lo,
            s0.subrange(lo as int, hi as int)[hi - 1 - lo],
        ).update(hi - 1 - lo, s0.subrange(lo as int, hi as int)[p_idx - lo]));
        assert(s1.subrange(lo as int, hi as int).to_multiset() == s0.subrange(
            lo as int,
            hi as int,
        ).to_multiset());
    }
    // the pivot sits at `hi - 1` and stays out of the partitioned range
    let split = partition_below_x(points, lo, hi - 1, pivot_x);
    let ghost s2 = points@;
    let s_abs = lo + split;
    proof {
        assert(s2[hi - 1] == s1[hi - 1]);
        assert(s2[hi - 1].x == pivot_x);
        lemma_subrange_split_multiset(s2, lo as int, hi as int - 1, hi as int);
        lemma_subrange_split_multiset(s1, lo as int, hi as int - 1, hi as int);
        assert(s2.subrange(hi as int - 1, hi as int) =~= s1.subrange(hi as int - 1, hi as int));
        assert(s2.subrange(lo as int, hi as int).to_multiset() == s1.subrange(
            lo as int,
            hi as int,
        ).to_multiset());
    }
    swap_points(points, s_abs, hi - 1);
    let ghost s3 = points@;
    proof {
        lemma_seq_swap_multiset(s2.subrange(lo as int, hi as int), s_abs - lo, hi - 1 - lo);
        assert(s3.subrange(lo as int, hi as int) =~= s2.subrange(lo as int, hi as int).update(
            s_abs - lo,
            s2.subrange(lo as int, hi as int)[hi - 1 - lo],
        ).update(hi - 1 - lo, s2.subrange(lo as int, hi as int)[s_abs - lo]));
        assert(s3.subrange(lo as int, hi as int).to_multiset() == s0.subrange(
            lo as int,
            hi as int,
        ).to_multiset());
        // after the swap back, the range is partitioned around the pivot slot
        assert(s3[s_abs as int].x == pivot_x);
        assert(forall|t: int| lo <= t < s_abs ==> (#[trigger] s3[t]).x < pivot_x);
        assert(forall|t: int| s_abs < t < hi ==> (#[trigger] s3[t]).x >= pivot_x);
    }
    if s_abs == position {
        return ;
    } else if s_abs > position {
        proof {
            lemma_x_at_most_multiset(s3.subrange(lo as int, s_abs as int), pivot_x - 1);
        }
        quick_select_points_inner(points, lo, s_abs, position);
        proof {
            let sf = points@;
            lemma_x_at_most_seq(sf.subrange(lo as int, s_abs as int), pivot_x - 1);
            assert forall|t: int| lo <= t < s_abs implies (#[trigger] sf[t]).x <= pivot_x - 1 by {
                assert(sf.subrange(lo as int, s_abs as int)[t - lo] == sf[t]);
            }
            assert(sf[position as int].x < pivot_x);
            assert(forall|t: int| s_abs <= t < hi ==> sf[t] == s3[t]);
            lemma_subrange_split_multiset(sf, lo as int, s_abs as int, hi as int);
            lemma_subrange_split_multiset(s3, lo as int, s_abs as int, hi as int);
            assert(sf.subrange(s_abs as int, hi as int) =~= s3.subrange(s_abs as int, hi as int));
        }
    } else {
        proof {
            lemma_x_at_least_multiset(s3.subrange(s_abs as int + 1, hi as int), pivot_x as int);
        }
        quick_select_points_inner(points, s_abs + 1, hi, position);
        proof {
            let sf = points@;
            lemma_x_at_least_seq(sf.subrange(s_abs as int + 1, hi as int), pivot_x as int);
            assert forall|t: int| s_abs + 1 <= t < hi implies (#[trigger] sf[t]).x >= pivot_x by {
                assert(sf.subrange(s_abs as int + 1, hi as int)[t - (s_abs + 1)] == sf[t]);
            }
            assert(sf[position as int].x >= pivot_x);
            assert(forall|t: int| lo <= t <= s_abs ==> sf[t] == s3[t]);
            lemma_subrange_split_multiset(sf, lo as int, s_abs as int + 1, hi as int);
            lemma_subrange_split_multiset(s3, lo as int, s_abs as int + 1, hi as int);
            assert(sf.subrange(lo as int, s_abs as int + 1) =~= s3.subrange(
                lo as int,
                s_abs as int + 1,
            ));
        }
    }
}

/// Performs QuickSelect on a list of points.
///
/// Given the list `points` and a `position`, the algorithm rearranges the
/// elements such that the point with the nth smallest x-coordinate is in the
/// position specified, all elements with larger x on its right and all
/// elements with smaller x on its left.
pub fn quick_select_points(points: &mut Vec<Point>, position: usize)
    requires
        position < old(points)@.len(),
    ensures
        final(points)@.len() == old(points)@.len(),
        final(points)@.to_multiset() == old(points)@.to_multiset(),
        partitioned_at(final(points)@, 0, final(points)@.len() as int, position as int),
{
    let n = points.len();
    quick_select_points_inner(points, 0, n, position);
    proof {
        assert(points@.subrange(0, n as int) =~= points@);
        assert(old(points)@.subrange(0, n as int) =~= old(points)@);
    }
}

} // verus!

use vstd::prelude::*;
use crate::closest::is_closest_pair;
use crate::closest::task_1::find_closest_pair_inner;
use crate::geometry::{all_valid, valid_point, Point, PointPair};

verus! {

/// The first cut of the divide-and-conquer solver: quickselect around the
/// median x, solve the halves, re-sort the strip by y on every level. It
/// shares its recursion with the polished variant.
#[derive(Clone, Debug)]
pub struct ClosestV1 {
    points: Vec<Point>,
}

impl View for ClosestV1 {
    type V = Seq<Point>;

    closed spec fn view(&self) -> Seq<Point> {
        self.points@
    }
}

impl ClosestV1 {
    pub fn new(points: Vec<Point>) -> (r: Self)
        ensures
            r@ == points@,
    {
        Self { points }
    }

    /// Find the closest pair of points in the list.
    pub fn find_closest_pair(&mut self) -> (r: PointPair)
        requires
            old(self)@.len() >= 2,
            all_valid(old(self)@),
        ensures
            final(self)@.to_multiset() == old(self)@.to_multiset(),
            is_closest_pair(old(self)@.to_multiset(), r),
            valid_point(r.0),
            valid_point(r.1),
    {
        let n = self.points.len();
        let r = find_closest_pair_inner(&mut self.points, 0, n);
        proof {
            assert(self.points@.subrange(0, n as int) =~= self.points@);
            assert(old(self)@.subrange(0, n as int) =~= old(self)@);
        }
        r
    }
}

} // verus!

//! Closest pair of points in the Euclidean plane.
//!
//! The library works on points with integer coordinates; distances are
//! compared through their squares, so all arithmetic is exact. The solvers
//! come in several variants: divide and conquer with quickselect splitting
//! (re-sorting the strip by y on every level), divide and conquer over an
//! x-presorted buffer (strip re-sorted each level, or kept y-sorted by
//! merging on the way up), and a randomized sieve over a spatial grid. Each
//! is proved to return a pair of input points at the minimal pairwise
//! squared distance, so all of them, and the brute-force reference, agree.

pub mod closest;
pub mod geometry;
pub mod quick_select;

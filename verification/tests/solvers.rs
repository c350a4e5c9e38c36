use closest_pairs::closest::closest_v1::ClosestV1;
use closest_pairs::closest::task_1::Task1;
use closest_pairs::closest::task_3_1::Task3QuickSort;
use closest_pairs::closest::task_3_2::{merge, Task3SortedY};
use closest_pairs::closest::task_4::Task4;
use closest_pairs::closest::{find_minimum_bruteforce, find_minimum_in_strip};
use closest_pairs::geometry::{Distance, Point, PointPair};
use rand::{Rng, SeedableRng};

fn pt(x: i64, y: i64) -> Point {
    Point { x, y }
}

fn solve_all(points: &[Point]) -> Vec<u64> {
    let mut results = Vec::new();
    results.push(
        ClosestV1::new(points.to_vec())
            .find_closest_pair()
            .distance()
            .0,
    );
    results.push(Task1::new(points.to_vec()).find_closest_pair().distance().0);
    results.push(
        Task3QuickSort::new(points.to_vec())
            .find_closest_pair()
            .distance()
            .0,
    );
    results.push(
        Task3SortedY::new(points.to_vec())
            .find_closest_pair()
            .distance()
            .0,
    );
    results.push(Task4::new(points.to_vec()).find_closest_pair().distance().0);
    results
}

#[test]
fn scenario_three_four_five() {
    // {(0,0),(3,4)} -> distance 5.0
    let points = vec![pt(0, 0), pt(3, 4)];
    for d in solve_all(&points) {
        assert_eq!(d, 25);
        assert_eq!((d as f64).sqrt(), 5.0);
    }
}

#[test]
fn scenario_coincident_pair() {
    // {(0,0),(0,0)} -> distance 0.0
    let points = vec![pt(0, 0), pt(0, 0)];
    for d in solve_all(&points) {
        assert_eq!(d, 0);
        assert_eq!((d as f64).sqrt(), 0.0);
    }
}

#[test]
fn two_points_come_back_as_the_answer() {
    let a = pt(-7, 2);
    let b = pt(5, -1);
    let pair = Task1::new(vec![a, b]).find_closest_pair();
    assert!((pair.0 == a && pair.1 == b) || (pair.0 == b && pair.1 == a));
}

#[test]
fn all_coincident_points_give_distance_zero() {
    let points = vec![pt(4, 4); 17];
    for d in solve_all(&points) {
        assert_eq!(d, 0);
    }
}

#[test]
fn three_points_match_brute_force() {
    let points = vec![pt(0, 0), pt(10, 0), pt(10, 1)];
    let reference = find_minimum_bruteforce(&points.clone()).distance().0;
    assert_eq!(reference, 1);
    for d in solve_all(&points) {
        assert_eq!(d, reference);
    }
}

#[test]
fn collinear_points_agree_with_brute_force() {
    // adversarial: points on a line, unevenly spaced
    let points: Vec<Point> = [0i64, 3, 7, 12, 14, 21, 29, 30, 40, 52]
        .iter()
        .map(|&x| pt(x, 0))
        .collect();
    let reference = find_minimum_bruteforce(&points.clone()).distance().0;
    assert_eq!(reference, 1);
    for d in solve_all(&points) {
        assert_eq!(d, reference);
    }
}

#[test]
fn reverse_sorted_points_agree_with_brute_force() {
    let points: Vec<Point> = (0..50).map(|i| pt(1000 - 20 * i, i * i)).collect();
    let reference = find_minimum_bruteforce(&points.clone()).distance().0;
    for d in solve_all(&points) {
        assert_eq!(d, reference);
    }
}

#[test]
fn random_points_cross_validate() {
    // 1000 uniformly random points in [0, 10^9]^2 with a fixed seed: all
    // solvers agree, and agree with brute force on a 50-point subsample
    let mut rng = rand::rngs::StdRng::seed_from_u64(0x456D_6D79);
    let points: Vec<Point> = (0..1000)
        .map(|_| {
            pt(
                rng.gen_range(0..=1_000_000_000i64),
                rng.gen_range(0..=1_000_000_000i64),
            )
        })
        .collect();
    let results = solve_all(&points);
    for d in &results {
        assert_eq!(*d, results[0]);
    }
    let sample: Vec<Point> = points[..50].to_vec();
    let reference = find_minimum_bruteforce(&sample.clone()).distance().0;
    for d in solve_all(&sample) {
        assert_eq!(d, reference);
    }
}

#[test]
fn small_random_sets_cross_validate() {
    let mut rng = rand::rngs::StdRng::seed_from_u64(7);
    for n in 2..40usize {
        let points: Vec<Point> = (0..n)
            .map(|_| pt(rng.gen_range(-50..=50i64), rng.gen_range(-50..=50i64)))
            .collect();
        let reference = find_minimum_bruteforce(&points.clone()).distance().0;
        for d in solve_all(&points) {
            assert_eq!(d, reference);
        }
    }
}

#[test]
fn strip_scan_finds_an_improvement() {
    // y-sorted strip; the pair (0,10),(1,11) at squared distance 2 beats
    // the incoming bound of 100
    let strip = vec![pt(0, 0), pt(0, 10), pt(1, 11), pt(0, 30)];
    let r = find_minimum_in_strip(&strip, Distance(100));
    let pair = r.expect("an improvement exists");
    assert_eq!(pair.distance().0, 2);
}

#[test]
fn strip_scan_reports_no_improvement() {
    let strip = vec![pt(0, 0), pt(0, 10), pt(0, 20)];
    let r = find_minimum_in_strip(&strip, Distance(100));
    assert!(r.is_none());
}

#[test]
fn strip_scan_tightens_its_bound() {
    // a far pair comes first in y-order; a closer pair later must win
    let strip = vec![pt(0, 0), pt(9, 0), pt(0, 50), pt(1, 50)];
    let r = find_minimum_in_strip(&strip, Distance(10_000));
    let pair = r.expect("an improvement exists");
    assert_eq!(pair.distance().0, 1);
}

#[test]
fn merge_keeps_points_sorted_by_y() {
    let left = vec![pt(5, 1), pt(6, 4), pt(7, 9)];
    let right = vec![pt(1, 2), pt(2, 3), pt(3, 5), pt(4, 10)];
    let mut out = vec![pt(0, 0); 7];
    merge(&left, &right, &mut out);
    let ys: Vec<i64> = out.iter().map(|q| q.y).collect();
    assert_eq!(ys, vec![1, 2, 3, 4, 5, 9, 10]);
    // same points, merely reordered
    let mut all: Vec<Point> = left.iter().chain(right.iter()).cloned().collect();
    all.sort_by_key(|q| (q.y, q.x));
    let mut merged = out.clone();
    merged.sort_by_key(|q| (q.y, q.x));
    assert_eq!(all, merged);
}

#[test]
fn merge_is_stable_on_equal_y() {
    // on equal y the element from the left input comes first
    let left = vec![pt(1, 5), pt(3, 7)];
    let right = vec![pt(2, 5), pt(4, 7)];
    let mut out = vec![pt(0, 0); 4];
    merge(&left, &right, &mut out);
    assert_eq!(out, vec![pt(1, 5), pt(2, 5), pt(3, 7), pt(4, 7)]);
}

#[test]
fn merge_handles_an_empty_side() {
    let left: Vec<Point> = Vec::new();
    let right = vec![pt(1, 2), pt(2, 3)];
    let mut out = vec![pt(0, 0); 2];
    merge(&left, &right, &mut out);
    assert_eq!(out, right);
}

#[test]
fn brute_force_exact_value() {
    let points = vec![pt(0, 0), pt(100, 0), pt(103, 4), pt(-50, -50)];
    let pair = find_minimum_bruteforce(&points);
    assert_eq!(pair.distance().0, 25);
}

#[test]
fn presorted_variants_handle_unsorted_input() {
    // would go wrong if the x-presort handed its input back unchanged
    let points = vec![pt(90, 0), pt(10, 0), pt(50, 0), pt(11, 0), pt(70, 0), pt(30, 0)];
    let reference = find_minimum_bruteforce(&points.clone()).distance().0;
    assert_eq!(reference, 1);
    assert_eq!(
        Task3QuickSort::new(points.clone())
            .find_closest_pair()
            .distance()
            .0,
        reference
    );
    assert_eq!(
        Task3SortedY::new(points.clone())
            .find_closest_pair()
            .distance()
            .0,
        reference
    );
}

#[test]
fn strip_sorting_matters() {
    // the strip around the split collects points whose closest partners
    // meet only once sorted by y; fails if the y-sort returned its input
    let points = vec![
        pt(-2, 100),
        pt(-1, 0),
        pt(-3, 200),
        pt(2, 101),
        pt(1, 300),
        pt(3, -50),
    ];
    let reference = find_minimum_bruteforce(&points.clone()).distance().0;
    for d in solve_all(&points) {
        assert_eq!(d, reference);
    }
}

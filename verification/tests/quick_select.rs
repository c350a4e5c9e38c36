use closest_pairs::geometry::Point;
use closest_pairs::quick_select::{find_pivot, quick_select_points};

fn p(x: i64) -> Point {
    Point { x, y: 0 }
}

#[test]
fn quick_select_small() {
    let mut points = vec![p(-5), p(-4), p(1), p(-3), p(2)];
    let length = points.len();

    // Clone points and use a known-good implementation
    let mut points2 = points.clone();
    points2.sort_by_key(|a| a.x);
    let median = points2[length / 2];

    quick_select_points(&mut points, length / 2);

    assert_eq!(points[length / 2], median);
    assert!(points[..length / 2].iter().all(|q| q.x <= median.x));
    assert!(points[length / 2..].iter().all(|q| q.x >= median.x));
}

#[test]
fn quick_select_many() {
    let mut points = vec![
        p(-5),
        p(-4),
        p(1),
        p(-3),
        p(2),
        p(19),
        p(-2),
        p(-1298),
        p(8),
        p(3),
        p(12),
        p(-2),
        p(-1),
    ];
    let length = points.len();

    // Clone points and use a known-good implementation
    let mut points2 = points.clone();
    points2.sort_by_key(|a| a.x);
    let median = points2[length / 2];

    quick_select_points(&mut points, length / 2);

    assert_eq!(points[length / 2], median);
    assert!(points[..length / 2].iter().all(|q| q.x <= median.x));
    assert!(points[length / 2..].iter().all(|q| q.x >= median.x));
}

#[test]
fn find_pivot_picks_the_median_of_three() {
    // first, middle and last are 1, 3, 5: the middle is the median
    let points = vec![p(1), p(2), p(3), p(4), p(5)];
    assert_eq!(find_pivot(&points), 2);
    // first, middle and last are 5, 3, 1: still the middle
    let points = vec![p(5), p(4), p(3), p(2), p(1)];
    assert_eq!(find_pivot(&points), 2);
    // first, middle and last are 3, 1, 5: the first is the median
    let points = vec![p(3), p(0), p(1), p(4), p(5)];
    assert_eq!(find_pivot(&points), 0);
    // first, middle and last are 1, 5, 3: the last is the median
    let points = vec![p(1), p(0), p(5), p(4), p(3)];
    assert_eq!(find_pivot(&points), 4);
}

#[test]
fn quick_select_handles_duplicate_x() {
    let mut points = vec![p(2), p(2), p(2), p(1), p(3), p(2)];
    quick_select_points(&mut points, 3);
    let v = points[3].x;
    assert!(points[..3].iter().all(|q| q.x <= v));
    assert!(points[4..].iter().all(|q| q.x >= v));
}

#[test]
fn quick_select_rerun_keeps_the_order_statistic() {
    // Re-running for the same index may rearrange the buffer, but the
    // x-coordinate at the index and the partition property stay.
    let mut points = vec![p(1), p(3), p(2), p(4), p(5)];
    quick_select_points(&mut points, 3);
    let v = points[3].x;
    quick_select_points(&mut points, 3);
    assert_eq!(points[3].x, v);
    assert!(points[..3].iter().all(|q| q.x <= v));
    assert!(points[4..].iter().all(|q| q.x >= v));
}

#[test]
fn quick_select_rerun_on_sorted_input_is_a_no_op() {
    let mut points = vec![p(1), p(2), p(3), p(4), p(5)];
    let before = points.clone();
    quick_select_points(&mut points, 2);
    assert_eq!(points, before);
}

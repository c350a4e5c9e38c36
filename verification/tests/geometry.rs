use closest_pairs::geometry::{Distance, Point, PointPair};

#[test]
fn it_works() {
    assert_eq!(2 + 2, 4);
}

#[test]
fn points_distance() {
    let a = Point { x: 0, y: 0 };
    let b = Point { x: 3, y: 4 };
    assert_eq!(a.distance_to(b), Distance(25));
    assert_eq!((a.distance_to(b).0 as f64).sqrt(), 5.0);
}

#[test]
fn points_distance_same() {
    let a = Point { x: 0, y: 0 };
    let b = a;
    assert_eq!(a.distance_to(b), Distance(0));
}

#[test]
fn points_distance_negative() {
    let a = Point { x: 0, y: 0 };
    let b = Point { x: -3, y: -4 };
    assert_eq!(a.distance_to(b), Distance(25));
    assert_eq!((a.distance_to(b).0 as f64).sqrt(), 5.0);
}

#[test]
fn distance_min_picks_smaller() {
    assert_eq!(Distance(9).min(Distance(16)), Distance(9));
    assert_eq!(Distance(16).min(Distance(9)), Distance(9));
    assert_eq!(Distance(7).min(Distance(7)), Distance(7));
}

#[test]
fn pair_distance_and_min() {
    let near = PointPair(Point { x: 0, y: 0 }, Point { x: 1, y: 1 });
    let far = PointPair(Point { x: 0, y: 0 }, Point { x: 10, y: 0 });
    assert_eq!(near.distance(), Distance(2));
    assert_eq!(far.distance(), Distance(100));
    let m = near.min(far);
    assert_eq!(m.distance(), Distance(2));
    let m2 = far.min(near);
    assert_eq!(m2.distance(), Distance(2));
}

#[test]
fn distance_is_exact_at_the_coordinate_limit() {
    let a = Point {
        x: -0x4000_0000,
        y: -0x4000_0000,
    };
    let b = Point {
        x: 0x4000_0000,
        y: 0x4000_0000,
    };
    // both squared differences are (2^31)^2, so the total is 2^63
    assert_eq!(a.distance_to(b), Distance(0x8000_0000_0000_0000));
}

use closest_pairs::closest::task_4::{Mesh, PointsInNeighbour};
use closest_pairs::geometry::Point;

fn pt(x: i64, y: i64) -> Point {
    Point { x, y }
}

#[test]
fn first_point_is_alone() {
    let mut mesh = Mesh::new(10);
    match mesh.add_point(pt(5, 5), 0) {
        PointsInNeighbour::Yes => panic!("an empty mesh has no neighbours"),
        PointsInNeighbour::No => {},
    }
}

#[test]
fn neighbouring_cell_is_seen() {
    let mut mesh = Mesh::new(10);
    mesh.add_point_unchecked(pt(5, 5), 0);
    // one cell to the right of (0, 0)
    match mesh.add_point(pt(15, 5), 1) {
        PointsInNeighbour::Yes => {},
        PointsInNeighbour::No => panic!("the adjacent cell is populated"),
    }
}

#[test]
fn far_cell_is_not_seen() {
    let mut mesh = Mesh::new(10);
    mesh.add_point_unchecked(pt(5, 5), 0);
    match mesh.add_point(pt(95, 95), 1) {
        PointsInNeighbour::Yes => panic!("nothing lives near that cell"),
        PointsInNeighbour::No => {},
    }
}

#[test]
fn closest_in_neighbourhood_is_found() {
    let mut mesh = Mesh::new(10);
    mesh.add_point_unchecked(pt(0, 0), 0);
    mesh.add_point_unchecked(pt(3, 4), 1);
    mesh.add_point_unchecked(pt(9, 9), 2);
    let pair = mesh
        .closest_pair_to_point_in_neighbour(pt(0, 0), 0)
        .expect("the neighbourhood is populated");
    assert_eq!(pair.0, pt(0, 0));
    assert_eq!(pair.1, pt(3, 4));
    assert_eq!(pair.distance().0, 25);
}

#[test]
fn lone_point_has_no_pair() {
    let mut mesh = Mesh::new(10);
    mesh.add_point_unchecked(pt(0, 0), 0);
    mesh.add_point_unchecked(pt(500, 500), 1);
    assert!(mesh.closest_pair_to_point_in_neighbour(pt(0, 0), 0).is_none());
}

#[test]
fn coincident_twin_counts_as_a_neighbour() {
    let mut mesh = Mesh::new(10);
    mesh.add_point_unchecked(pt(7, 7), 0);
    mesh.add_point_unchecked(pt(7, 7), 1);
    let pair = mesh
        .closest_pair_to_point_in_neighbour(pt(7, 7), 0)
        .expect("the twin is a real companion");
    assert_eq!(pair.distance().0, 0);
}

#[test]
fn negative_coordinates_use_their_own_cells() {
    let mut mesh = Mesh::new(10);
    mesh.add_point_unchecked(pt(-5, -5), 0);
    // cell (-1, -1) and cell (0, 0) are adjacent
    match mesh.add_point(pt(5, 5), 1) {
        PointsInNeighbour::Yes => {},
        PointsInNeighbour::No => panic!("the diagonal cell is populated"),
    }
    // cell (-10, -10) is far from cell (-1, -1)
    match mesh.add_point(pt(-95, -95), 2) {
        PointsInNeighbour::Yes => panic!("nothing lives near that cell"),
        PointsInNeighbour::No => {},
    }
}

use xenobalanus::hull::{concave_hull, hull_edges, order_hull_edges};
use xenobalanus::{Edge, HullError, Point};

fn square() -> Vec<Point> {
    vec![Point::new(0, 0), Point::new(1, 0), Point::new(1, 1), Point::new(0, 1)]
}

fn is_walk(edges: &Vec<(usize, usize)>, walk: &Vec<usize>) -> bool {
    if walk.len() != edges.len() + 1 {
        return false;
    }
    let mut used = vec![false; edges.len()];
    for i in 0..edges.len() {
        let (a, b) = (walk[i], walk[i + 1]);
        match (0..edges.len()).find(|&j| {
            !used[j] && ((edges[j].0 == a && edges[j].1 == b) || (edges[j].0 == b && edges[j].1 == a))
        }) {
            Some(j) => used[j] = true,
            None => return false,
        }
    }
    true
}

#[test]
fn square_hull_is_its_boundary() {
    let points = square();
    let subset = vec![0, 1, 2, 3];
    let tris = vec![0, 1, 2, 0, 2, 3];
    let mut edges = hull_edges(&points, &subset, &tris, 2).unwrap();
    edges.sort_by_key(|e| (e.0, e.1));
    assert_eq!(edges, vec![Edge(0, 1), Edge(0, 3), Edge(1, 2), Edge(2, 3)]);
    let walk = concave_hull(&points, &subset, &tris, 2).unwrap();
    assert_eq!(walk.len(), 4);
    let mut inner: Vec<usize> = walk.clone();
    inner.sort();
    assert_eq!(inner, vec![0, 1, 2, 3]);
}

#[test]
fn hull_maps_positions_to_point_indices() {
    let mut points = vec![Point::new(9, 9), Point::new(8, 8)];
    points.extend(square());
    let subset = vec![2, 3, 4, 5];
    let tris = vec![0, 1, 2, 0, 2, 3];
    let mut edges = hull_edges(&points, &subset, &tris, 2).unwrap();
    edges.sort_by_key(|e| (e.0, e.1));
    assert_eq!(edges, vec![Edge(2, 3), Edge(2, 5), Edge(3, 4), Edge(4, 5)]);
}

#[test]
fn long_edges_are_left_out() {
    let points = vec![Point::new(0, 0), Point::new(10, 0), Point::new(0, 1)];
    let subset = vec![0, 1, 2];
    let edges = hull_edges(&points, &subset, &vec![0, 1, 2], 2).unwrap();
    assert_eq!(edges, vec![Edge(0, 2)]);
}

#[test]
fn hull_errors() {
    let points = square();
    let subset = vec![0, 1, 2, 3];
    assert_eq!(concave_hull(&points, &subset, &vec![], 2).unwrap_err(), HullError::NoTriangles);
    assert_eq!(
        concave_hull(&points, &subset, &vec![0, 1, 7], 2).unwrap_err(),
        HullError::IndexOutOfRange
    );
    assert_eq!(
        concave_hull(&points, &vec![0, 1, 9], &vec![0, 1, 2], 2).unwrap_err(),
        HullError::IndexOutOfRange
    );
    assert_eq!(
        concave_hull(&points, &subset, &vec![0, 1, 2, 0, 2, 3], 1).unwrap_err(),
        HullError::NoHullEdges
    );
}

#[test]
fn ordering_follows_shared_endpoints() {
    let edges = vec![(0, 1), (2, 3), (1, 2)];
    let walk = order_hull_edges(&edges).unwrap();
    assert_eq!(walk, vec![0, 1, 2, 3]);
    assert!(is_walk(&edges, &walk));
    let ring = vec![(3, 0), (1, 2), (0, 1), (2, 3)];
    let walk = order_hull_edges(&ring).unwrap();
    assert_eq!(walk, vec![3, 0, 1, 2]);
    let mut closed = walk.clone();
    closed.push(walk[0]);
    assert!(is_walk(&ring, &closed));
}

#[test]
fn open_boundary_from_a_middle_edge() {
    let edges = vec![(1, 2), (0, 1), (2, 3)];
    let walk = order_hull_edges(&edges).unwrap();
    assert_eq!(walk, vec![3, 2, 1, 0]);
    assert!(is_walk(&edges, &walk));
}

#[test]
fn branching_boundary_is_refused() {
    // A walk through every edge exists, but it passes vertex 1 twice.
    let edges = vec![(0, 1), (1, 2), (2, 3), (3, 1), (1, 4)];
    assert_eq!(order_hull_edges(&edges).unwrap_err(), HullError::Branched);
}

#[test]
fn ordering_errors() {
    assert_eq!(order_hull_edges(&vec![]).unwrap_err(), HullError::NoEdges);
    assert_eq!(
        order_hull_edges(&vec![(0, 1), (5, 6)]).unwrap_err(),
        HullError::Disconnected
    );
}

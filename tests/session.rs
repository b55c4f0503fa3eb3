use delaunator::{triangulate, Point as DelaunatorPoint};
use rand::Rng;
use xenobalanus::{build_graph, delfin, dtscan, GeometryData, GraphError, Point, Xenobalanus};

fn square_session() -> Xenobalanus {
    let mut x = Xenobalanus::new();
    x.set_points(vec![Point::new(0, 0), Point::new(1, 0), Point::new(1, 1), Point::new(0, 1)]);
    x.set_triangles(vec![0, 1, 2, 0, 2, 3]);
    x
}

#[test]
fn session_getters() {
    let x = square_session();
    assert_eq!(x.point(2), Point::new(1, 1));
    assert_eq!(x.points(), vec![(0, 0), (1, 0), (1, 1), (0, 1)]);
    assert_eq!(x.points_flat(), vec![0, 0, 1, 0, 1, 1, 0, 1]);
    assert_eq!(x.triangles_flat(), vec![0, 1, 2, 0, 2, 3]);
    assert_eq!(x.triangle_vertices(), vec![vec![0, 1, 2], vec![0, 2, 3]]);
    assert_eq!(
        x.triangle_coordinates(),
        vec![vec![(0, 0), (1, 0), (1, 1)], vec![(0, 0), (1, 1), (0, 1)]]
    );
}

#[test]
fn short_last_piece_is_kept() {
    let mut x = square_session();
    x.set_triangles(vec![0, 1, 2, 3]);
    assert_eq!(x.triangle_vertices(), vec![vec![0, 1, 2], vec![3]]);
    assert_eq!(x.triangle_coordinates(), vec![vec![(0, 0), (1, 0), (1, 1)], vec![(0, 1)]]);
}

#[test]
fn session_preprocess_and_queries() {
    let mut x = square_session();
    assert_eq!(x.preprocess(0), Ok(()));
    assert_eq!(x.triangle_data().len(), 2);
    let t = x.triangle(1);
    assert_eq!(t.vertices, vec![0, 2, 3]);
    assert_eq!(t.get_edges().len(), 3);
    let voids = x.delfin(1, 1);
    assert_eq!(voids.len(), 1);
    let clusters = x.dtscan(2, 1);
    let total: usize = clusters.iter().map(|c| c.len()).sum();
    assert_eq!(total, 4);
    let mut lengths = x.edge_lengths();
    lengths.sort_by_key(|p| (p.0 .0, p.0 .1));
    assert_eq!(lengths.len(), 5);
    assert_eq!(lengths[1], (xenobalanus::Edge(0, 2), 2));
}

#[test]
fn session_preprocess_refusal_keeps_graph() {
    let mut x = square_session();
    x.preprocess(0).unwrap();
    x.set_triangles(vec![0, 1]);
    assert_eq!(x.preprocess(0), Err(GraphError::MalformedTriangulation));
    assert_eq!(x.triangle_data().len(), 2);
}

#[test]
fn random_points_stay_in_the_square() {
    let mut x = Xenobalanus::new();
    x.random_points((100, -50), 20, 500);
    assert_eq!(x.points().len(), 500);
    let mut distinct = std::collections::HashSet::new();
    for (px, py) in x.points() {
        assert!((90..=110).contains(&px));
        assert!((-60..=-40).contains(&py));
        distinct.insert((px, py));
    }
    assert!(distinct.len() > 1);
    x.random_points_3d((5, 7), 4, 100);
    for n in &x.nodes {
        assert!((3..=7).contains(&n.x));
        assert!((5..=9).contains(&n.y));
        assert!((5..=9).contains(&n.z));
    }
}

#[test]
fn test() {
    // Points in a disc of radius ten thousand, on a grid twice as fine as the
    // unit: lengths double, areas quadruple, and the thresholds with them.
    let dots: u32 = 10000;
    let radius: f32 = 10000.0;
    let mut rng = rand::thread_rng();
    let points: Vec<Point> = (0..dots)
        .map(|_| {
            let angle: f32 = rng.gen_range(0.0..(2.0 * std::f32::consts::PI));
            let r: f32 = (rng.gen_range(0.0..=1.0) as f32).sqrt() * radius;
            Point::new((2.0 * r * angle.cos()).round() as i32, (2.0 * r * angle.sin()).round() as i32)
        })
        .collect();
    println!("Generated {:#?} random dots", dots);
    let flat: Vec<DelaunatorPoint> = points
        .iter()
        .map(|p| DelaunatorPoint { x: p.x as f64, y: p.y as f64 })
        .collect();
    let triangles_indices: Vec<usize> = triangulate(&flat).triangles;
    println!("Generated Delaunay triangulation");

    let geometry_data: GeometryData = build_graph(&points, &triangles_indices, 0).unwrap();

    let min_area: u64 = 4000;
    let min_distance: u64 = 400;
    let min_pts: usize = 5;
    let max_closeness: u64 = 201;

    let void_polygons: Vec<Vec<usize>> = delfin(&geometry_data, min_area, min_distance);
    println!("Found {:#?} Voids", void_polygons.len());

    let clusters: Vec<Vec<usize>> = dtscan(&geometry_data, min_pts, max_closeness);
    println!("Found {:#?} Attractors", clusters.len());
}

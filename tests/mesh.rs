use simple_delaunay_lib::delaunay_3d::delaunay_struct_3d::DelaunayStructure3D;
use xenobalanus::{build_mesh_graph, dtscan, Cell, Edge, Point3D, Xenobalanus};

fn tetra_nodes() -> Vec<Point3D> {
    vec![
        Point3D::new((0, 0, 0)),
        Point3D::new((1, 0, 0)),
        Point3D::new((0, 1, 0)),
        Point3D::new((0, 0, 1)),
        Point3D::new((2, 2, 2)),
    ]
}

#[test]
fn full_cell_joins_six_pairs() {
    let nodes = tetra_nodes();
    let cells: Vec<Cell> = vec![[Some(0), Some(1), Some(2), Some(3)]];
    let g = build_mesh_graph(&nodes, &cells);
    let mut count = 0;
    for a in 0..4 {
        for b in (a + 1)..4 {
            assert!(g.get_edge_length(a, b).is_some());
            assert!(g.vertex_connections[a].contains(&b));
            assert!(g.vertex_connections[b].contains(&a));
            count += 1;
        }
    }
    assert_eq!(count, 6);
    assert_eq!(g.get_edge_length(1, 2), Some(2));
    assert_eq!(g.get_edge_length(0, 3), Some(1));
    assert_eq!(g.get_edge_length(0, 4), None);
    assert!(g.get_edge_triangles(0, 1).is_empty());
    assert!(g.triangles.is_empty());
}

#[test]
fn hull_cell_joins_its_three_vertices() {
    let nodes = tetra_nodes();
    let cells: Vec<Cell> = vec![[Some(4), None, Some(1), Some(2)]];
    let g = build_mesh_graph(&nodes, &cells);
    assert_eq!(g.get_edge_length(1, 4), Some(9));
    assert_eq!(g.get_edge_length(2, 4), Some(9));
    assert_eq!(g.get_edge_length(1, 2), Some(2));
    assert_eq!(g.get_edge_length(0, 1), None);
    assert_eq!(g.vertex_connections[4].len(), 2);
}

#[test]
fn unusable_cells_are_passed_over() {
    let nodes = tetra_nodes();
    let cells: Vec<Cell> = vec![[Some(0), None, None, Some(1)], [Some(0), Some(1), Some(2), Some(9)]];
    let g = build_mesh_graph(&nodes, &cells);
    assert!(g.vertex_connections.iter().all(|c| c.is_empty()));
    assert_eq!(g.get_edge_length(0, 1), None);
}

#[test]
fn session_cells_one_at_a_time() {
    let mut x = Xenobalanus::new();
    x.nodes = tetra_nodes();
    x.preprocess_3d();
    assert!(x.add_triangle(0, 1, 2));
    assert!(!x.add_triangle(0, 1, 7));
    assert!(x.add_tetrahedron(1, 2, 3, 4));
    assert_eq!(x.geometry_data.get_edge_length(3, 4), Some(9));
    assert_eq!(x.geometry_data.get_edge_length(0, 3), None);
    let mut e = x.edge_lengths();
    e.sort_by_key(|p| (p.0 .0, p.0 .1));
    assert_eq!(e.len(), 3 + 6 - 1);
    assert_eq!(e[0], (Edge(0, 1), 1));
}

#[test]
fn mesh_graph_adds_to_the_graph_held() {
    let mut x = Xenobalanus::new();
    x.nodes = tetra_nodes();
    x.preprocess_3d();
    assert!(x.add_triangle(0, 1, 2));
    // An empty mesh adds nothing and takes nothing away.
    x.preprocess_3d();
    assert!(x.geometry_data.vertex_connections[0].contains(&1));
    assert_eq!(x.geometry_data.get_edge_length(1, 2), Some(2));
    // A 2D graph keeps its triangle records when a mesh is added.
    let mut y = Xenobalanus::new();
    y.set_points(vec![xenobalanus::Point::new(0, 0), xenobalanus::Point::new(1, 0), xenobalanus::Point::new(0, 1)]);
    y.set_triangles(vec![0, 1, 2]);
    y.preprocess(0).unwrap();
    y.nodes = tetra_nodes();
    y.preprocess_3d();
    assert_eq!(y.geometry_data.triangles.len(), 1);
    assert_eq!(y.geometry_data.get_edge_triangles(0, 1), vec![0]);
    assert_eq!(y.geometry_data.vertex_connections.len(), 5);
    assert!(y.geometry_data.vertex_connections[4].is_empty());
}

#[test]
fn mesh_from_the_triangulation_crate() {
    let mut x = Xenobalanus::new();
    x.nodes = tetra_nodes();
    let coords: Vec<[f64; 3]> = x
        .nodes
        .iter()
        .map(|p| [p.x as f64, p.y as f64, p.z as f64])
        .collect();
    let mut mesh = DelaunayStructure3D::new();
    mesh.insert_vertices(&coords, false).unwrap();
    x.set_tetrahedrons(mesh);
    x.preprocess_3d();
    // Five points in general position: every point lies on the hull and is
    // joined to at least three others.
    for v in 0..5 {
        assert!(x.geometry_data.vertex_connections[v].len() >= 3);
        for &w in &x.geometry_data.vertex_connections[v] {
            assert!(x.geometry_data.vertex_connections[w].contains(&v));
        }
    }
    assert_eq!(x.geometry_data.get_edge_length(0, 1), Some(1));
    let clusters = dtscan(&x.geometry_data, 3, 2);
    assert!(clusters.iter().map(|c| c.len()).sum::<usize>() <= 5);
}

#[test]
fn threed() {
    let mut geodesic = Xenobalanus::new();
    // Coordinates on a grid a thousand times finer than the unit cube.
    geodesic.random_points_3d((0, 0), 1000, 1000);
    let coords: Vec<[f64; 3]> = geodesic
        .nodes
        .iter()
        .map(|p| [p.x as f64, p.y as f64, p.z as f64])
        .collect();
    let mut mesh = DelaunayStructure3D::new();
    mesh.insert_vertices(&coords, true).unwrap_or_default();
    geodesic.set_tetrahedrons(mesh);
    geodesic.preprocess_3d();
    let attractors = geodesic.dtscan(5, 85);
    println!("{:#?}", attractors);
}

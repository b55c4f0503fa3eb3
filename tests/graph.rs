use xenobalanus::{build_graph, build_graph_range, delfin, dtscan, Edge, GeometryData, GraphError, Point};

fn square() -> (Vec<Point>, Vec<usize>) {
    let points = vec![Point::new(0, 0), Point::new(1, 0), Point::new(1, 1), Point::new(0, 1)];
    let triangles = vec![0, 1, 2, 0, 2, 3];
    (points, triangles)
}

fn two_far_triangles() -> (Vec<Point>, Vec<usize>) {
    let points = vec![
        Point::new(0, 0),
        Point::new(2, 0),
        Point::new(1, 2),
        Point::new(1000, 1000),
        Point::new(1002, 1000),
        Point::new(1001, 1002),
    ];
    let triangles = vec![0, 1, 2, 3, 4, 5];
    (points, triangles)
}

fn sorted(mut v: Vec<usize>) -> Vec<usize> {
    v.sort();
    v
}

fn sorted_sets(r: &Vec<Vec<usize>>) -> Vec<Vec<usize>> {
    let mut out: Vec<Vec<usize>> = r.iter().map(|c| sorted(c.clone())).collect();
    out.sort();
    out
}

#[test]
fn square_terminal_edges_are_the_diagonal() {
    let (points, triangles) = square();
    let g = build_graph(&points, &triangles, 0).unwrap();
    assert_eq!(g.triangles.len(), 2);
    for t in &g.triangles {
        assert_eq!(t.terminal_edge, Some(Edge(0, 2)));
    }
    assert_eq!(g.get_edge_length(0, 2), Some(2));
    assert_eq!(g.get_edge_length(2, 0), Some(2));
    assert_eq!(g.get_edge_length(0, 1), Some(1));
    assert_eq!(g.get_edge_length(1, 3), None);
}

#[test]
fn square_doubled_areas_and_sorted_vertices() {
    let (points, triangles) = square();
    let g = build_graph(&points, &triangles, 0).unwrap();
    assert_eq!(g.triangles[0].double_area, Some(1));
    assert_eq!(g.triangles[1].double_area, Some(1));
    assert_eq!(g.triangles[0].vertices, vec![0, 1, 2]);
    assert_eq!(g.triangles[1].vertices, vec![0, 2, 3]);
    assert_eq!(g.triangles[1].index, 1);
}

#[test]
fn terminal_edge_is_longest_of_each_triangle() {
    let points = vec![Point::new(0, 0), Point::new(10, 0), Point::new(3, 4), Point::new(5, -7)];
    let triangles = vec![0, 1, 2, 1, 0, 3, 2, 3, 1];
    let g = build_graph(&points, &triangles, 2).unwrap();
    for t in 0..3 {
        let te = g.triangles[t].terminal_edge.unwrap();
        let lt = g.get_edge_length(te.0, te.1).unwrap();
        for k in 0..3 {
            let a = triangles[3 * t + k];
            let b = triangles[3 * t + (k + 1) % 3];
            assert!(g.get_edge_length(a, b).unwrap() <= lt);
        }
    }
    assert_eq!(g.triangles[0].terminal_edge, Some(Edge(0, 1)));
}

#[test]
fn terminal_edge_ties_favour_the_first_edge() {
    // Right isosceles triangle listed so that the two legs come first.
    let points = vec![Point::new(0, 0), Point::new(2, 0), Point::new(0, 2)];
    let g = build_graph(&points, &vec![1, 0, 2], 0).unwrap();
    assert_eq!(g.triangles[0].terminal_edge, Some(Edge(1, 2)));
    // An equilateral-like tie: all three edges of equal squared length.
    let points = vec![Point::new(0, 0), Point::new(5, 0), Point::new(0, 5), Point::new(5, 5)];
    let g = build_graph(&points, &vec![1, 2, 3], 0).unwrap();
    // Edges: (1,2) has 50, (2,3) 25, (3,1) 25: the first is longest.
    assert_eq!(g.triangles[0].terminal_edge, Some(Edge(1, 2)));
    let g = build_graph(&points, &vec![1, 3, 0], 0).unwrap();
    // Edges: (1,3) 25, (3,0) 50, (0,1) 25.
    assert_eq!(g.triangles[0].terminal_edge, Some(Edge(0, 3)));
}

#[test]
fn edges_have_one_or_two_triangles() {
    let (points, triangles) = square();
    let g = build_graph(&points, &triangles, 0).unwrap();
    assert_eq!(g.get_edge_triangles(0, 2), vec![0, 1]);
    assert_eq!(g.get_edge_triangles(0, 1), vec![0]);
    assert_eq!(g.get_edge_triangles(3, 0), vec![1]);
    assert_eq!(g.get_edge_triangles(1, 3), Vec::<usize>::new());
    for a in 0..4 {
        for b in a..4 {
            let n = g.get_edge_triangles(a, b).len();
            if g.get_edge_length(a, b).is_some() {
                assert!(n == 1 || n == 2);
            }
        }
    }
}

#[test]
fn connections_are_symmetric() {
    let (points, triangles) = square();
    let g = build_graph(&points, &triangles, 0).unwrap();
    for a in 0..4 {
        for b in 0..4 {
            assert_eq!(
                g.vertex_connections[a].contains(&b),
                g.vertex_connections[b].contains(&a)
            );
        }
    }
    assert_eq!(sorted(g.vertex_connections[0].clone()), vec![1, 2, 3]);
    assert_eq!(sorted(g.vertex_connections[1].clone()), vec![0, 2]);
}

#[test]
fn build_modes_choose_what_is_kept() {
    let (points, triangles) = square();
    let adjacency_only = build_graph(&points, &triangles, 1).unwrap();
    assert_eq!(adjacency_only.triangles.len(), 2);
    assert_eq!(adjacency_only.triangles[0].terminal_edge, None);
    assert_eq!(adjacency_only.triangles[0].double_area, None);
    assert_eq!(adjacency_only.vertex_connections[0].len(), 3);
    let records_only = build_graph(&points, &triangles, 2).unwrap();
    assert_eq!(records_only.triangles[1].terminal_edge, Some(Edge(0, 2)));
    assert!(records_only.vertex_connections.iter().all(|c| c.is_empty()));
    assert_eq!(records_only.get_edge_length(0, 2), Some(2));
}

#[test]
fn malformed_triangulation_is_refused() {
    let (points, _) = square();
    assert_eq!(
        build_graph(&points, &vec![0, 1, 2, 3], 0).unwrap_err(),
        GraphError::MalformedTriangulation
    );
}

#[test]
fn out_of_range_vertex_is_refused() {
    let (points, _) = square();
    assert_eq!(
        build_graph(&points, &vec![0, 1, 4], 0).unwrap_err(),
        GraphError::VertexOutOfRange
    );
}

#[test]
fn empty_input_gives_empty_graph_and_results() {
    let g: GeometryData = build_graph(&Vec::new(), &Vec::new(), 0).unwrap();
    assert_eq!(g.triangles.len(), 0);
    assert_eq!(g.edges.len(), 0);
    assert_eq!(g.vertex_connections.len(), 0);
    assert!(delfin(&g, 0, 0).is_empty());
    assert!(dtscan(&g, 0, 0).is_empty());
}

#[test]
fn square_gives_one_void_of_both_triangles() {
    let (points, triangles) = square();
    let g = build_graph(&points, &triangles, 0).unwrap();
    // The diagonal's squared length is 2, so every bound up to 1 keeps it;
    // the doubled total area is 2, so every area bound up to 1 keeps it.
    for (min_area, min_distance) in [(0, 0), (1, 1), (1, 0), (0, 1)] {
        let voids = delfin(&g, min_area, min_distance);
        assert_eq!(sorted_sets(&voids), vec![vec![0, 1]]);
    }
    assert!(delfin(&g, 2, 1).is_empty());
    assert!(delfin(&g, 1, 2).is_empty());
}

#[test]
fn voids_are_disjoint_and_large_enough() {
    // A fan of triangles around a centre, and a lone far triangle.
    let points = vec![
        Point::new(0, 0),
        Point::new(10, 0),
        Point::new(0, 10),
        Point::new(-10, 0),
        Point::new(0, -10),
        Point::new(100, 100),
        Point::new(130, 100),
        Point::new(100, 101),
    ];
    let triangles = vec![0, 1, 2, 0, 2, 3, 0, 3, 4, 0, 4, 1, 5, 6, 7];
    let g = build_graph(&points, &triangles, 0).unwrap();
    let voids = delfin(&g, 0, 0);
    let mut seen = std::collections::HashSet::new();
    for v in &voids {
        assert!(v.len() >= 2);
        for t in v {
            assert!(seen.insert(*t));
        }
    }
    assert!(!seen.contains(&4));
}

#[test]
fn delfin_twice_gives_the_same_regions() {
    let (points, triangles) = square();
    let g = build_graph(&points, &triangles, 0).unwrap();
    assert_eq!(sorted_sets(&delfin(&g, 0, 1)), sorted_sets(&delfin(&g, 0, 1)));
    let (points, triangles) = two_far_triangles();
    let g = build_graph(&points, &triangles, 0).unwrap();
    assert_eq!(sorted_sets(&dtscan(&g, 2, 3)), sorted_sets(&dtscan(&g, 2, 3)));
}

#[test]
fn two_far_clusters_partition_all_vertices() {
    let (points, triangles) = two_far_triangles();
    let g = build_graph(&points, &triangles, 0).unwrap();
    let clusters = dtscan(&g, 2, 3);
    assert_eq!(sorted_sets(&clusters), vec![vec![0, 1, 2], vec![3, 4, 5]]);
}

#[test]
fn clusters_are_disjoint() {
    let points = vec![
        Point::new(0, 0),
        Point::new(1, 0),
        Point::new(0, 1),
        Point::new(1, 1),
        Point::new(2, 0),
        Point::new(50, 50),
    ];
    let triangles = vec![0, 1, 2, 1, 3, 2, 1, 4, 3, 3, 5, 4];
    let g = build_graph(&points, &triangles, 0).unwrap();
    let clusters = dtscan(&g, 2, 1);
    let mut seen = std::collections::HashSet::new();
    for c in &clusters {
        for v in c {
            assert!(seen.insert(*v));
        }
    }
    assert!(!seen.contains(&5));
}

#[test]
fn no_core_vertex_gives_no_cluster() {
    let (points, triangles) = two_far_triangles();
    let g = build_graph(&points, &triangles, 0).unwrap();
    // Every vertex has two neighbours.
    assert!(dtscan(&g, 3, 3).is_empty());
    // Edges are longer than one.
    assert!(dtscan(&g, 2, 1).is_empty());
}

#[test]
fn dtscan_needs_adjacency() {
    let (points, triangles) = two_far_triangles();
    let g = build_graph(&points, &triangles, 2).unwrap();
    assert!(dtscan(&g, 0, 10).is_empty());
}

#[test]
fn longest_terminal_edge_seeds_first() {
    // Triangle 0 is flat, its longest edge shared with triangle 1, whose own
    // longest edge is on the boundary and longer still. Seeded from triangle
    // 1 the region takes triangle 0; seeded from triangle 0 it would not.
    let points = vec![Point::new(0, 0), Point::new(4, 0), Point::new(2, -1), Point::new(10, 8)];
    let triangles = vec![0, 1, 2, 0, 1, 3];
    let g = build_graph(&points, &triangles, 0).unwrap();
    assert_eq!(g.triangles[0].terminal_edge, Some(Edge(0, 1)));
    assert_eq!(g.triangles[1].terminal_edge, Some(Edge(0, 3)));
    assert_eq!(delfin(&g, 0, 0), vec![vec![1, 0]]);
}

#[test]
fn ranges_merge_into_the_whole_graph() {
    let points = vec![
        Point::new(0, 0),
        Point::new(10, 0),
        Point::new(0, 10),
        Point::new(-10, 0),
        Point::new(0, -10),
    ];
    let triangles = vec![0, 1, 2, 0, 2, 3, 0, 3, 4, 0, 4, 1];
    let whole = build_graph(&points, &triangles, 0).unwrap();
    let mut merged = build_graph_range(&points, &triangles, 0, 0, 1).unwrap();
    let middle = build_graph_range(&points, &triangles, 0, 1, 3).unwrap();
    let last = build_graph_range(&points, &triangles, 0, 3, 4).unwrap();
    assert_eq!(middle.triangles.len(), 2);
    assert_eq!(middle.triangles[0].index, 1);
    assert!(merged.merge(middle));
    assert!(merged.merge(last));
    assert_eq!(merged.triangles.len(), 4);
    for t in 0..4 {
        assert_eq!(merged.triangles[t].index, whole.triangles[t].index);
        assert_eq!(merged.triangles[t].terminal_edge, whole.triangles[t].terminal_edge);
        assert_eq!(merged.triangles[t].double_area, whole.triangles[t].double_area);
    }
    for a in 0..5 {
        assert_eq!(
            sorted(merged.vertex_connections[a].clone()),
            sorted(whole.vertex_connections[a].clone())
        );
        for b in 0..5 {
            assert_eq!(merged.get_edge_length(a, b), whole.get_edge_length(a, b));
            assert_eq!(merged.get_edge_triangles(a, b), whole.get_edge_triangles(a, b));
        }
    }
    assert_eq!(merged.get_edge_triangles(0, 1), vec![0, 3]);
}

#[test]
fn range_errors_and_refused_merge() {
    let (points, triangles) = square();
    assert_eq!(
        build_graph_range(&points, &triangles, 0, 1, 3).unwrap_err(),
        GraphError::RangeOutOfBounds
    );
    assert_eq!(
        build_graph_range(&points, &triangles, 0, 2, 1).unwrap_err(),
        GraphError::RangeOutOfBounds
    );
    assert_eq!(
        build_graph_range(&points, &vec![0, 1, 2, 0, 2, 9], 0, 0, 1).unwrap().triangles.len(),
        1
    );
    assert_eq!(
        build_graph_range(&points, &vec![0, 1, 2, 0, 2, 9], 0, 1, 2).unwrap_err(),
        GraphError::VertexOutOfRange
    );
    let mut g = build_graph(&points, &triangles, 0).unwrap();
    let other = build_graph(&vec![Point::new(0, 0)], &vec![], 0).unwrap();
    assert!(!g.merge(other));
    assert_eq!(g.triangles.len(), 2);
}

#[test]
fn void_vertices_of_the_square() {
    let (points, triangles) = square();
    let g = build_graph(&points, &triangles, 0).unwrap();
    let voids = delfin(&g, 1, 1);
    let vertices = xenobalanus::delfin::region_vertices(&g, &voids[0]);
    assert_eq!(sorted(vertices), vec![0, 1, 2, 3]);
    assert!(xenobalanus::delfin::region_vertices(&g, &vec![7]).is_empty());
}

#[test]
fn regions_below_the_minimum_size_are_dropped() {
    let (points, triangles) = square();
    let g = build_graph(&points, &triangles, 0).unwrap();
    assert_eq!(xenobalanus::delfin::delfin_min_triangles(&g, 0, 0, 2).len(), 1);
    assert!(xenobalanus::delfin::delfin_min_triangles(&g, 0, 0, 3).is_empty());
    assert_eq!(xenobalanus::delfin::delfin_min_triangles(&g, 0, 0, 0).len(), 1);
}

//! The analysis session: points, their triangulation, the derived graph, and
//! the 3D nodes and mesh.
use vstd::prelude::*;

use rand::Rng;
use simple_delaunay_lib::delaunay_3d::delaunay_struct_3d::DelaunayStructure3D;

use crate::construct::{build_graph, built_from, valid_triangulation, GraphError};
use crate::delfin::{delfin, delfin_min_triangles, delfin_result};
use crate::dtscan::{dtscan, dtscan_result};
use crate::geometry::{Edge, Point, TriangleData};
use crate::graph::GeometryData;
use crate::hull::{
    as_pairs, concave_hull, is_hull, order_hull_edges, ring_of, short_edges, stuck_walk,
    valid_subset, walks, HullError,
};
use crate::mesh::{
    cell_pairs, lemma_extended_joined, joined_from, mesh_cells, mesh_pairs, read_cells, Point3D,
};

verus! {

/// Relies on `rand::Rng::gen_range` over an inclusive range, with the
/// thread-local generator: a value within the bounds (it panics only on an
/// empty range).
#[verifier::external_body]
fn random_in(lo: i64, hi: i64) -> (r: i64)
    requires
        lo <= hi,
    ensures
        lo <= r <= hi,
{
    rand::thread_rng().gen_range(lo..=hi)
}

/// A point cloud with its triangulation and derived graph, and a point cloud
/// in space with its tetrahedral mesh.
pub struct Xenobalanus {
    pub geometry_data: GeometryData,
    pub points: Vec<Point>,
    pub triangulation: Vec<usize>,
    pub nodes: Vec<Point3D>,
    pub tetrahedrons: DelaunayStructure3D,
}

/// The square of side `side_length` around `center` lies on the grid.
pub open spec fn square_fits(center: (i32, i32), side_length: u32) -> bool {
    &&& center.0 - side_length / 2 >= i32::MIN
    &&& center.0 + side_length / 2 <= i32::MAX
    &&& center.1 - side_length / 2 >= i32::MIN
    &&& center.1 + side_length / 2 <= i32::MAX
}

/// Where the `i`-th piece of a flat triangulation of length `len` ends.
pub open spec fn piece_end(len: int, i: int) -> int {
    if 3 * i + 3 <= len {
        3 * i + 3
    } else {
        len
    }
}

/// Whether `v` lies within `half` of `c`.
pub open spec fn within(v: i32, c: i32, half: u32) -> bool {
    c - half <= v <= c + half
}

impl Xenobalanus {
    /// An empty session.
    pub fn new() -> (r: Xenobalanus)
        ensures
            r.geometry_data.wf(),
            r.geometry_data.vertex_count() == 0,
            r.geometry_data.triangles@.len() == 0,
            r.points@.len() == 0,
            r.triangulation@.len() == 0,
            r.nodes@.len() == 0,
            mesh_cells(r.tetrahedrons).len() == 0,
    {
        Xenobalanus {
            geometry_data: GeometryData::new(0),
            points: Vec::new(),
            triangulation: Vec::new(),
            nodes: Vec::new(),
            tetrahedrons: DelaunayStructure3D::new(),
        }
    }

    /// The point at `index`.
    pub fn point(&self, index: usize) -> (r: Point)
        requires
            index < self.points@.len(),
        ensures
            r == self.points@[index as int],
    {
        self.points[index]
    }

    /// The points as coordinate pairs.
    pub fn points(&self) -> (r: Vec<(i32, i32)>)
        ensures
            r@.len() == self.points@.len(),
            forall|i: int|
                0 <= i < r@.len() ==> #[trigger] r@[i] == (self.points@[i].x, self.points@[i].y),
    {
        let mut r: Vec<(i32, i32)> = Vec::new();
        let mut i: usize = 0;
        while i < self.points.len()
            invariant
                i <= self.points@.len(),
                r@.len() == i,
                forall|j: int|
                    0 <= j < i ==> #[trigger] r@[j] == (self.points@[j].x, self.points@[j].y),
            decreases self.points@.len() - i,
        {
            r.push((self.points[i].x, self.points[i].y));
            i = i + 1;
        }
        r
    }

    /// The coordinates of all points in one run: `x` then `y` of each.
    pub fn points_flat(&self) -> (r: Vec<i32>)
        ensures
            r@.len() == 2 * self.points@.len(),
            forall|i: int|
                0 <= i < self.points@.len() ==> r@[2 * i] == self.points@[i].x && r@[2 * i + 1]
                    == self.points@[i].y,
    {
        let mut r: Vec<i32> = Vec::new();
        let mut i: usize = 0;
        while i < self.points.len()
            invariant
                i <= self.points@.len(),
                r@.len() == 2 * i,
                forall|j: int|
                    0 <= j < i ==> r@[2 * j] == self.points@[j].x && r@[2 * j + 1]
                        == self.points@[j].y,
            decreases self.points@.len() - i,
        {
            r.push(self.points[i].x);
            r.push(self.points[i].y);
            i = i + 1;
        }
        r
    }

    /// Replaces the points.
    pub fn set_points(&mut self, points: Vec<Point>)
        ensures
            final(self).points@ == points@,
            final(self).triangulation == old(self).triangulation,
            final(self).geometry_data == old(self).geometry_data,
            final(self).nodes == old(self).nodes,
    {
        self.points = points;
    }

    /// A copy of the record of triangle `index`.
    pub fn triangle(&self, index: usize) -> (r: TriangleData)
        requires
            index < self.geometry_data.triangles@.len(),
        ensures
            r.index == self.geometry_data.triangles@[index as int].index,
            r.double_area == self.geometry_data.triangles@[index as int].double_area,
            r.terminal_edge == self.geometry_data.triangles@[index as int].terminal_edge,
            r.vertices@ == self.geometry_data.triangles@[index as int].vertices@,
    {
        self.geometry_data.triangles[index].duplicate()
    }

    /// The triangle records.
    pub fn triangle_data(&self) -> (r: &Vec<TriangleData>)
        ensures
            r@ == self.geometry_data.triangles@,
    {
        &self.geometry_data.triangles
    }

    /// The triangulation as a flat array, three vertex indices per triangle.
    pub fn triangles_flat(&self) -> (r: Vec<usize>)
        ensures
            r@ == self.triangulation@,
    {
        self.triangulation.clone()
    }

    /// The triangulation cut into triples; a short last piece is kept.
    pub fn triangle_vertices(&self) -> (r: Vec<Vec<usize>>)
        ensures
            r@.len() == (self.triangulation@.len() + 2) / 3,
            forall|i: int|
                0 <= i < r@.len() ==> (#[trigger] r@[i])@ == self.triangulation@.subrange(
                    3 * i,
                    piece_end(self.triangulation@.len() as int, i),
                ),
    {
        let t = &self.triangulation;
        let count = t.len() / 3 + if t.len() % 3 == 0 {
            0
        } else {
            1
        };
        let mut r: Vec<Vec<usize>> = Vec::new();
        let mut i: usize = 0;
        while i < count
            invariant
                count == (t@.len() + 2) / 3,
                t@.len() <= usize::MAX,
                i <= count,
                r@.len() == i,
                forall|j: int|
                    0 <= j < i ==> (#[trigger] r@[j])@ == t@.subrange(3 * j, piece_end(t@.len() as int, j)),
            decreases count - i,
        {
            let start = 3 * i;
            let end: usize = if t.len() - start >= 3 {
                start + 3
            } else {
                t.len()
            };
            let mut chunk: Vec<usize> = Vec::new();
            let mut k: usize = start;
            while k < end
                invariant
                    start <= k <= end,
                    end <= t@.len(),
                    chunk@ == t@.subrange(start as int, k as int),
                decreases end - k,
            {
                chunk.push(t[k]);
                k = k + 1;
                proof {
                    assert(chunk@ =~= t@.subrange(start as int, k as int));
                }
            }
            r.push(chunk);
            i = i + 1;
        }
        r
    }

    /// The coordinates of each triangle's corners; a short last piece is kept.
    pub fn triangle_coordinates(&self) -> (r: Vec<Vec<(i32, i32)>>)
        requires
            forall|i: int|
                0 <= i < self.triangulation@.len() ==> #[trigger] self.triangulation@[i]
                    < self.points@.len(),
        ensures
            r@.len() == (self.triangulation@.len() + 2) / 3,
            forall|i: int|
                0 <= i < r@.len() ==> (#[trigger] r@[i])@.len() == piece_end(self.triangulation@.len() as int, i) - 3 * i,
            forall|i: int, k: int|
                0 <= i < r@.len() && 0 <= k < r@[i]@.len() ==> #[trigger] r@[i]@[k] == (
                    self.points@[self.triangulation@[3 * i + k] as int].x,
                    self.points@[self.triangulation@[3 * i + k] as int].y,
                ),
    {
        let t = &self.triangulation;
        let count = t.len() / 3 + if t.len() % 3 == 0 {
            0
        } else {
            1
        };
        let mut r: Vec<Vec<(i32, i32)>> = Vec::new();
        let mut i: usize = 0;
        while i < count
            invariant
                forall|j: int| 0 <= j < t@.len() ==> #[trigger] t@[j] < self.points@.len(),
                t == &self.triangulation,
                count == (t@.len() + 2) / 3,
                t@.len() <= usize::MAX,
                i <= count,
                r@.len() == i,
                forall|j: int|
                    0 <= j < i ==> (#[trigger] r@[j])@.len() == piece_end(t@.len() as int, j) - 3 * j,
                forall|j: int, k: int|
                    0 <= j < i && 0 <= k < r@[j]@.len() ==> #[trigger] r@[j]@[k] == (
                        self.points@[t@[3 * j + k] as int].x,
                        self.points@[t@[3 * j + k] as int].y,
                    ),
            decreases count - i,
        {
            let start = 3 * i;
            let end: usize = if t.len() - start >= 3 {
                start + 3
            } else {
                t.len()
            };
            let mut coords: Vec<(i32, i32)> = Vec::new();
            let mut k: usize = start;
            while k < end
                invariant
                    forall|j: int| 0 <= j < t@.len() ==> #[trigger] t@[j] < self.points@.len(),
                    start <= k <= end,
                    end <= t@.len(),
                    coords@.len() == k - start,
                    forall|m: int|
                        0 <= m < k - start ==> #[trigger] coords@[m] == (
                            self.points@[t@[start + m] as int].x,
                            self.points@[t@[start + m] as int].y,
                        ),
                decreases end - k,
            {
                let p = self.points[t[k]];
                coords.push((p.x, p.y));
                k = k + 1;
            }
            let ghost r0 = r@;
            r.push(coords);
            proof {
                assert forall|j: int, k: int|
                    0 <= j < i + 1 && 0 <= k < r@[j]@.len() implies #[trigger] r@[j]@[k] == (
                        self.points@[t@[3 * j + k] as int].x,
                        self.points@[t@[3 * j + k] as int].y,
                    ) by {
                    if j < i {
                        assert(r@[j] == r0[j]);
                    }
                }
                assert forall|j: int| 0 <= j < i + 1 implies (#[trigger] r@[j])@.len() == piece_end(t@.len() as int, j) - 3 * j by {
                    if j < i {
                        assert(r@[j] == r0[j]);
                    }
                }
            }
            i = i + 1;
        }
        r
    }

    /// Replaces the triangulation.
    pub fn set_triangles(&mut self, vertices: Vec<usize>)
        ensures
            final(self).triangulation@ == vertices@,
            final(self).points == old(self).points,
            final(self).geometry_data == old(self).geometry_data,
            final(self).nodes == old(self).nodes,
    {
        self.triangulation = vertices;
    }

    /// Adds `num_points` random points in the square of side `side_length`
    /// around `center`.
    pub fn random_points(&mut self, center: (i32, i32), side_length: u32, num_points: u32)
        requires
            square_fits(center, side_length),
        ensures
            final(self).points@.len() == old(self).points@.len() + num_points,
            final(self).points@.subrange(0, old(self).points@.len() as int) == old(self).points@,
            forall|i: int|
                old(self).points@.len() <= i < final(self).points@.len() ==> within(
                    #[trigger] final(self).points@[i].x,
                    center.0,
                    side_length / 2,
                ) && within(final(self).points@[i].y, center.1, side_length / 2),
            final(self).triangulation == old(self).triangulation,
            final(self).geometry_data == old(self).geometry_data,
            final(self).nodes == old(self).nodes,
    {
        let half: i64 = (side_length / 2) as i64;
        let ghost start = self.points@;
        let mut k: u32 = 0;
        while k < num_points
            invariant
                square_fits(center, side_length),
                half == side_length / 2,
                k <= num_points,
                self.points@.len() == start.len() + k,
                self.points@.subrange(0, start.len() as int) == start,
                forall|i: int|
                    start.len() <= i < self.points@.len() ==> within(
                        #[trigger] self.points@[i].x,
                        center.0,
                        side_length / 2,
                    ) && within(self.points@[i].y, center.1, side_length / 2),
                self.triangulation == old(self).triangulation,
                self.geometry_data == old(self).geometry_data,
                self.nodes == old(self).nodes,
            decreases num_points - k,
        {
            let x = random_in(center.0 as i64 - half, center.0 as i64 + half);
            let y = random_in(center.1 as i64 - half, center.1 as i64 + half);
            let ghost before = self.points@;
            self.points.push(Point { x: x as i32, y: y as i32 });
            proof {
                assert(self.points@.subrange(0, start.len() as int) =~= before.subrange(0, start.len() as int));
            }
            k = k + 1;
        }
    }

    /// The edges of the graph with their squared lengths, each once.
    pub fn edge_lengths(&self) -> (r: Vec<(Edge, u128)>)
        requires
            self.geometry_data.edges_wf(),
        ensures
            forall|i: int, j: int| 0 <= i < j < r@.len() ==> r@[i].0 != r@[j].0,
            forall|e: Edge, l: u128|
                #[trigger] r@.contains((e, l)) <==> self.geometry_data.edge_length(e) == Some(l),
    {
        let g = &self.geometry_data;
        let mut r: Vec<(Edge, u128)> = Vec::new();
        let mut a: usize = 0;
        while a < g.edges.len()
            invariant
                g.edges_wf(),
                a <= g.edges@.len(),
                forall|i: int, j: int| 0 <= i < j < r@.len() ==> r@[i].0 != r@[j].0,
                forall|i: int| 0 <= i < r@.len() ==> (#[trigger] r@[i]).0.0 < a,
                forall|e: Edge, l: u128|
                    #[trigger] r@.contains((e, l)) <==> (e.0 < a && g.edge_length(e) == Some(l)),
            decreases g.edges@.len() - a,
        {
            let bucket = &g.edges[a];
            let mut k: usize = 0;
            let ghost r_start = r@;
            while k < bucket.len()
                invariant
                    g.edges_wf(),
                    a < g.edges@.len(),
                    bucket@ == g.edges@[a as int]@,
                    k <= bucket@.len(),
                    r@.len() == r_start.len() + k,
                    r@.subrange(0, r_start.len() as int) == r_start,
                    forall|i: int| 0 <= i < r_start.len() ==> (#[trigger] r_start[i]).0.0 < a,
                    forall|i: int, j: int| 0 <= i < j < r_start.len() ==> r_start[i].0 != r_start[j].0,
                    forall|i: int|
                        0 <= i < k ==> #[trigger] r@[r_start.len() + i] == (
                            Edge(a, bucket@[i].other),
                            bucket@[i].length_sq,
                        ),
                decreases bucket@.len() - k,
            {
                let ghost r0 = r@;
                r.push((Edge(a, bucket[k].other), bucket[k].length_sq));
                proof {
                    assert(r@.subrange(0, r_start.len() as int) =~= r0.subrange(0, r_start.len() as int));
                    assert forall|i: int| 0 <= i < k implies #[trigger] r@[r_start.len() + i] == (
                        Edge(a, bucket@[i].other),
                        bucket@[i].length_sq,
                    ) by {
                        assert(r@[r_start.len() + i] == r0[r_start.len() + i]);
                    }
                }
                k = k + 1;
            }
            proof {
                let n0 = r_start.len() as int;
                assert forall|i: int| 0 <= i < r@.len() implies (#[trigger] r@[i]).0.0 < a + 1 by {
                    if i < n0 {
                        assert(r@[i] == r_start[i]);
                    } else {
                        assert(r@[n0 + (i - n0)] == r@[i]);
                    }
                }
                assert forall|i: int, j: int| 0 <= i < j < r@.len() implies r@[i].0 != r@[j].0 by {
                    if j < n0 {
                        assert(r@[i] == r_start[i] && r@[j] == r_start[j]);
                    } else if i < n0 {
                        assert(r@[i] == r_start[i]);
                        assert(r@[n0 + (j - n0)] == r@[j]);
                    } else {
                        assert(r@[n0 + (i - n0)] == r@[i]);
                        assert(r@[n0 + (j - n0)] == r@[j]);
                    }
                }
                assert forall|e: Edge, l: u128|
                    #[trigger] r@.contains((e, l)) <==> (e.0 < a + 1 && g.edge_length(e) == Some(l)) by {
                    if r@.contains((e, l)) {
                        let i = choose|i: int| 0 <= i < r@.len() && r@[i] == (e, l);
                        if i < n0 {
                            assert(r@[i] == r_start[i]);
                            assert(r_start.contains((e, l)));
                        } else {
                            assert(r@[n0 + (i - n0)] == r@[i]);
                            g.lemma_slot(a as int, i - n0);
                        }
                    }
                    if e.0 < a + 1 && g.edge_length(e) == Some(l) {
                        if e.0 < a {
                            assert(r_start.contains((e, l)));
                            let i = choose|i: int| 0 <= i < r_start.len() && r_start[i] == (e, l);
                            assert(r@[i] == r_start[i]);
                        } else {
                            let s = g.slot_of(e);
                            g.lemma_slot(a as int, s);
                            assert(r@[n0 + s] == (e, l));
                        }
                    }
                }
            }
            a = a + 1;
        }
        proof {
            assert forall|e: Edge, l: u128|
                #[trigger] r@.contains((e, l)) <==> g.edge_length(e) == Some(l) by {
                if g.edge_length(e) == Some(l) {
                    assert(g.holds_edge(e));
                }
            }
        }
        r
    }

    /// Builds the derived graph of the triangulation under mode `types` (0:
    /// triangle records and adjacency, 1: adjacency, 2: triangle records).
    /// A triangulation that does not split into triples of valid vertex
    /// indices is refused, and the graph is left as it was.
    pub fn preprocess(&mut self, types: usize) -> (r: Result<(), GraphError>)
        ensures
            r is Ok <==> valid_triangulation(old(self).points@.len(), old(self).triangulation@),
            r is Ok ==> built_from(final(self).geometry_data, old(self).points@, old(self).triangulation@, types),
            r is Ok ==> final(self).geometry_data.wf(),
            r is Err ==> final(self).geometry_data == old(self).geometry_data,
            r == Err::<(), GraphError>(GraphError::MalformedTriangulation) <==> old(self).triangulation@.len() % 3 != 0,
            final(self).points == old(self).points,
            final(self).triangulation == old(self).triangulation,
            final(self).nodes == old(self).nodes,
    {
        match build_graph(&self.points, &self.triangulation, types) {
            Ok(g) => {
                self.geometry_data = g;
                Ok(())
            },
            Err(e) => Err(e),
        }
    }

    /// DELFIN over the derived graph: void regions of at least two
    /// triangles, seeded by terminal edges at least `min_distance` long, with
    /// area at least `min_area`.
    pub fn delfin(&self, min_area: u64, min_distance: u64) -> (r: Vec<Vec<usize>>)
        requires
            self.geometry_data.edges_wf(),
        ensures
            delfin_result(
                self.geometry_data,
                2,
                2 * min_area as int,
                min_distance as int * min_distance as int,
                r@),
    {
        delfin(&self.geometry_data, min_area, min_distance)
    }

    /// DELFIN over the derived graph, keeping only regions of at least
    /// `min_triangles` triangles (and never fewer than two).
    pub fn delfin_min_triangles(&self, min_area: u64, min_distance: u64, min_triangles: usize) -> (r: Vec<Vec<usize>>)
        requires
            self.geometry_data.edges_wf(),
        ensures
            delfin_result(
                self.geometry_data,
                min_triangles as int,
                2 * min_area as int,
                min_distance as int * min_distance as int,
                r@,
            ),
    {
        delfin_min_triangles(&self.geometry_data, min_area, min_distance, min_triangles)
    }

    /// DTSCAN over the derived graph: clusters grown from core vertices (at
    /// least `min_pts` neighbours, all within `max_closeness`).
    pub fn dtscan(&self, min_pts: usize, max_closeness: u64) -> (r: Vec<Vec<usize>>)
        requires
            self.geometry_data.wf(),
        ensures
            dtscan_result(self.geometry_data, min_pts, max_closeness as int * max_closeness as int, r@),
    {
        dtscan(&self.geometry_data, min_pts, max_closeness)
    }

    /// The concave hull of the points at `vertex_indices`, given their own
    /// triangulation (positions into `vertex_indices`, three per triangle).
    pub fn concave_hull(&self, vertex_indices: &Vec<usize>, sub_triangulation: &Vec<usize>, alpha: u64) -> (r:
        Result<Vec<usize>, HullError>)
        ensures
            r == Err::<Vec<usize>, HullError>(HullError::NoTriangles) <==> sub_triangulation@.len() == 0,
            r == Err::<Vec<usize>, HullError>(HullError::IndexOutOfRange) <==> (sub_triangulation@.len() > 0
                && !valid_subset(self.points@.len(), vertex_indices@, sub_triangulation@)),
            r == Err::<Vec<usize>, HullError>(HullError::NoHullEdges) <==> (sub_triangulation@.len() > 0
                && valid_subset(self.points@.len(), vertex_indices@, sub_triangulation@) && forall|e: Edge|
                #[trigger] short_edges(
                    self.points@,
                    vertex_indices@,
                    sub_triangulation@,
                    alpha as int * alpha as int,
                    3 * (sub_triangulation@.len() as int / 3),
                ).to_multiset().count(e) != 1),
            r != Err::<Vec<usize>, HullError>(HullError::NoEdges),
            r is Ok ==> r->Ok_0@.no_duplicates() && exists|hull: Seq<Edge>, w: Seq<usize>, steps: Seq<int>|
                is_hull(self.points@, vertex_indices@, sub_triangulation@, alpha, hull) && #[trigger] walks(
                    as_pairs(hull),
                    w,
                    steps,
                ) && r->Ok_0@ == ring_of(w),
            r == Err::<Vec<usize>, HullError>(HullError::Disconnected) ==> exists|hull: Seq<Edge>, w: Seq<usize>, steps: Seq<int>|
                is_hull(self.points@, vertex_indices@, sub_triangulation@, alpha, hull) && #[trigger] stuck_walk(
                    as_pairs(hull),
                    w,
                    steps,
                ),
            r == Err::<Vec<usize>, HullError>(HullError::Branched) ==> exists|hull: Seq<Edge>, w: Seq<usize>, steps: Seq<int>|
                is_hull(self.points@, vertex_indices@, sub_triangulation@, alpha, hull) && #[trigger] walks(
                    as_pairs(hull),
                    w,
                    steps,
                ) && !ring_of(w).no_duplicates(),
    {
        concave_hull(&self.points, vertex_indices, sub_triangulation, alpha)
    }

    /// Orders hull edges into one boundary.
    pub fn order_hull_edges(&self, hull_edge_indices: Vec<(usize, usize)>) -> (r: Result<Vec<usize>, HullError>)
        ensures
            hull_edge_indices@.len() == 0 <==> r == Err::<Vec<usize>, HullError>(HullError::NoEdges),
            r is Ok ==> r->Ok_0@.no_duplicates() && exists|w: Seq<usize>, steps: Seq<int>|
                #[trigger] walks(hull_edge_indices@, w, steps) && r->Ok_0@ == ring_of(w),
            r matches Err(err) ==> err == HullError::NoEdges || err == HullError::Disconnected || err
                == HullError::Branched,
            r == Err::<Vec<usize>, HullError>(HullError::Disconnected) ==> exists|w: Seq<usize>, steps: Seq<int>|
                #[trigger] stuck_walk(hull_edge_indices@, w, steps),
            r == Err::<Vec<usize>, HullError>(HullError::Branched) ==> exists|w: Seq<usize>, steps: Seq<int>|
                #[trigger] walks(hull_edge_indices@, w, steps) && !ring_of(w).no_duplicates(),
    {
        order_hull_edges(&hull_edge_indices)
    }

    /// Adds `num_points` random points in the cube of side `side_length`
    /// around `center`: `x` and `y` around the centre's coordinates, `z`
    /// over the same range as `y`.
    pub fn random_points_3d(&mut self, center: (i32, i32), side_length: u32, num_points: u32)
        requires
            square_fits(center, side_length),
        ensures
            final(self).nodes@.len() == old(self).nodes@.len() + num_points,
            final(self).nodes@.subrange(0, old(self).nodes@.len() as int) == old(self).nodes@,
            forall|i: int|
                old(self).nodes@.len() <= i < final(self).nodes@.len() ==> within(
                    #[trigger] final(self).nodes@[i].x,
                    center.0,
                    side_length / 2,
                ) && within(final(self).nodes@[i].y, center.1, side_length / 2) && within(
                    final(self).nodes@[i].z,
                    center.1,
                    side_length / 2,
                ),
            final(self).points == old(self).points,
            final(self).geometry_data == old(self).geometry_data,
    {
        let half: i64 = (side_length / 2) as i64;
        let ghost start = self.nodes@;
        let mut k: u32 = 0;
        while k < num_points
            invariant
                square_fits(center, side_length),
                half == side_length / 2,
                k <= num_points,
                self.nodes@.len() == start.len() + k,
                self.nodes@.subrange(0, start.len() as int) == start,
                forall|i: int|
                    start.len() <= i < self.nodes@.len() ==> within(
                        #[trigger] self.nodes@[i].x,
                        center.0,
                        side_length / 2,
                    ) && within(self.nodes@[i].y, center.1, side_length / 2) && within(
                        self.nodes@[i].z,
                        center.1,
                        side_length / 2,
                    ),
                self.points == old(self).points,
                self.geometry_data == old(self).geometry_data,
            decreases num_points - k,
        {
            let x = random_in(center.0 as i64 - half, center.0 as i64 + half);
            let y = random_in(center.1 as i64 - half, center.1 as i64 + half);
            let z = random_in(center.1 as i64 - half, center.1 as i64 + half);
            let ghost before = self.nodes@;
            self.nodes.push(Point3D { x: x as i32, y: y as i32, z: z as i32 });
            proof {
                assert(self.nodes@.subrange(0, start.len() as int) =~= before.subrange(0, start.len() as int));
            }
            k = k + 1;
        }
    }

    /// Replaces the tetrahedral mesh of the nodes.
    pub fn set_tetrahedrons(&mut self, mesh: DelaunayStructure3D)
        ensures
            mesh_cells(final(self).tetrahedrons) == mesh_cells(mesh),
            final(self).nodes == old(self).nodes,
            final(self).points == old(self).points,
            final(self).geometry_data == old(self).geometry_data,
    {
        self.tetrahedrons = mesh;
    }

    /// Joins the three vertices of a hull-boundary cell: the edges between
    /// them, with their squared lengths, and their adjacency; what the graph
    /// held stays, laid out first for all the nodes. Nothing is joined where a
    /// vertex is not among the nodes.
    pub fn add_triangle(&mut self, vertex1: usize, vertex2: usize, vertex3: usize) -> (r: bool)
        requires
            old(self).geometry_data.wf(),
            old(self).geometry_data.vertex_count() <= old(self).nodes@.len(),
        ensures
            r == (vertex1 < old(self).nodes@.len() && vertex2 < old(self).nodes@.len() && vertex3
                < old(self).nodes@.len()),
            joined_from(
                final(self).geometry_data,
                old(self).geometry_data,
                old(self).nodes@,
                if r {
                    cell_pairs([Some(vertex1), Some(vertex2), Some(vertex3), None])
                } else {
                    Set::empty()
                },
            ),
            final(self).geometry_data.triangles == old(self).geometry_data.triangles,
            final(self).nodes == old(self).nodes,
            final(self).points == old(self).points,
            mesh_cells(final(self).tetrahedrons) == mesh_cells(old(self).tetrahedrons),
    {
        let cell = [Some(vertex1), Some(vertex2), Some(vertex3), None];
        let ghost g0 = self.geometry_data;
        self.geometry_data.extend_to(self.nodes.len());
        let ghost g1 = self.geometry_data;
        let r = self.geometry_data.register_cell(&self.nodes, &cell);
        proof {
            lemma_extended_joined(g0, g1, self.geometry_data, self.nodes@, if r {
                cell_pairs(cell)
            } else {
                Set::empty()
            });
        }
        r
    }

    /// Joins every two of the four vertices of a cell: the edges between
    /// them, with their squared lengths, and their adjacency; what the graph
    /// held stays, laid out first for all the nodes. Nothing is joined where a
    /// vertex is not among the nodes.
    pub fn add_tetrahedron(&mut self, vertex1: usize, vertex2: usize, vertex3: usize, vertex4: usize) -> (r: bool)
        requires
            old(self).geometry_data.wf(),
            old(self).geometry_data.vertex_count() <= old(self).nodes@.len(),
        ensures
            r == (vertex1 < old(self).nodes@.len() && vertex2 < old(self).nodes@.len() && vertex3
                < old(self).nodes@.len() && vertex4 < old(self).nodes@.len()),
            joined_from(
                final(self).geometry_data,
                old(self).geometry_data,
                old(self).nodes@,
                if r {
                    cell_pairs([Some(vertex1), Some(vertex2), Some(vertex3), Some(vertex4)])
                } else {
                    Set::empty()
                },
            ),
            final(self).geometry_data.triangles == old(self).geometry_data.triangles,
            final(self).nodes == old(self).nodes,
            final(self).points == old(self).points,
            mesh_cells(final(self).tetrahedrons) == mesh_cells(old(self).tetrahedrons),
    {
        let cell = [Some(vertex1), Some(vertex2), Some(vertex3), Some(vertex4)];
        let ghost g0 = self.geometry_data;
        self.geometry_data.extend_to(self.nodes.len());
        let ghost g1 = self.geometry_data;
        let r = self.geometry_data.register_cell(&self.nodes, &cell);
        proof {
            lemma_extended_joined(g0, g1, self.geometry_data, self.nodes@, if r {
                cell_pairs(cell)
            } else {
                Set::empty()
            });
        }
        r
    }

    /// Adds the graph of the tetrahedral mesh to the graph held: every two
    /// vertices of each cell with at most one node at infinity are joined,
    /// with their squared length and in the adjacency. The graph is first
    /// laid out for all the nodes; what it held stays, triangle records and
    /// incidence lists included.
    pub fn preprocess_3d(&mut self)
        requires
            old(self).geometry_data.wf(),
            old(self).geometry_data.vertex_count() <= old(self).nodes@.len(),
        ensures
            joined_from(
                final(self).geometry_data,
                old(self).geometry_data,
                old(self).nodes@,
                mesh_pairs(
                    mesh_cells(old(self).tetrahedrons),
                    old(self).nodes@.len(),
                    mesh_cells(old(self).tetrahedrons).len() as int,
                ),
            ),
            final(self).geometry_data.triangles == old(self).geometry_data.triangles,
            mesh_cells(final(self).tetrahedrons) == mesh_cells(old(self).tetrahedrons),
            final(self).nodes == old(self).nodes,
            final(self).points == old(self).points,
    {
        let ghost g0 = self.geometry_data;
        let cells = read_cells(&self.tetrahedrons);
        self.geometry_data.extend_to(self.nodes.len());
        let ghost g1 = self.geometry_data;
        self.geometry_data.register_cells(&self.nodes, &cells);
        proof {
            lemma_extended_joined(g0, g1, self.geometry_data, self.nodes@, mesh_pairs(
                cells@,
                self.nodes@.len(),
                cells@.len() as int,
            ));
        }
    }
}

} // verus!

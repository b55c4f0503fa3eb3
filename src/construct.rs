//! Building the derived graph from a flat triangulation: three vertex
//! indices per triangle.
use vstd::prelude::*;

use crate::geometry::{
    canon, dist_sq, double_area, pick_terminal, sort_three, sorted3, terminal_slot,
    triangle_double_area, Edge, Point, TriangleData,
};
use crate::graph::GeometryData;

verus! {

/// Why a triangulation was refused.
#[derive(Debug, Clone, Copy, PartialEq, Eq, Structural)]
pub enum GraphError {
    /// The index array does not split into triples.
    MalformedTriangulation,
    /// A triangle names a vertex that is not among the points.
    VertexOutOfRange,
    /// A range of triangles that the triangulation does not hold.
    RangeOutOfBounds,
}

/// Whether the build keeps triangle records (areas and terminal edges).
pub open spec fn with_triangles(types: usize) -> bool {
    types == 0 || types == 2
}

/// Whether the build keeps vertex adjacency.
pub open spec fn with_connections(types: usize) -> bool {
    types == 0 || types == 1
}

/// The number of triangles in a flat triangulation.
pub open spec fn tri_count(tris: Seq<usize>) -> int {
    tris.len() as int / 3
}

/// The `k`-th vertex of triangle `t`.
pub open spec fn corner(tris: Seq<usize>, t: int, k: int) -> usize {
    tris[3 * t + k]
}

/// The corner that follows corner `k` around a triangle.
pub open spec fn next3(k: int) -> int {
    if k == 2 {
        0
    } else {
        k + 1
    }
}

/// The `k`-th edge of triangle `t`: from corner `k` to the next corner.
pub open spec fn tri_edge(tris: Seq<usize>, t: int, k: int) -> Edge {
    canon(corner(tris, t, k), corner(tris, t, next3(k)))
}

/// The squared length of the `k`-th edge of triangle `t`.
pub open spec fn tri_edge_len(points: Seq<Point>, tris: Seq<usize>, t: int, k: int) -> int {
    dist_sq(points[corner(tris, t, k) as int], points[corner(tris, t, next3(k)) as int])
}

/// The terminal edge of triangle `t`: its longest, the first of them in
/// corner order where lengths tie.
pub open spec fn tri_terminal(points: Seq<Point>, tris: Seq<usize>, t: int) -> Edge {
    tri_edge(
        tris,
        t,
        terminal_slot(
            tri_edge_len(points, tris, t, 0),
            tri_edge_len(points, tris, t, 1),
            tri_edge_len(points, tris, t, 2),
        ),
    )
}

/// Twice the area of triangle `t`.
pub open spec fn tri_double_area(points: Seq<Point>, tris: Seq<usize>, t: int) -> int {
    double_area(
        points[corner(tris, t, 0) as int],
        points[corner(tris, t, 1) as int],
        points[corner(tris, t, 2) as int],
    )
}

/// Whether the corners of the triangles from `lo` up to `hi` are vertices.
pub open spec fn valid_range(n: nat, tris: Seq<usize>, lo: int, hi: int) -> bool {
    forall|i: int| 3 * lo <= i < 3 * hi ==> #[trigger] tris[i] < n
}

/// Whether a flat triangulation splits into triples of valid vertex indices.
pub open spec fn valid_triangulation(n: nat, tris: Seq<usize>) -> bool {
    &&& tris.len() % 3 == 0
    &&& forall|i: int| 0 <= i < tris.len() ==> #[trigger] tris[i] < n
}

/// Whether `e` is an edge of one of the triangles from `lo` up to `count`.
pub open spec fn edge_in(tris: Seq<usize>, lo: int, count: int, e: Edge) -> bool {
    exists|t: int, k: int| lo <= t < count && 0 <= k < 3 && #[trigger] tri_edge(tris, t, k) == e
}

/// Triangle `t` once for each of its first `k` edges that is `e`.
pub open spec fn hits(tris: Seq<usize>, t: int, e: Edge, k: int) -> Seq<usize>
    decreases k,
{
    if k <= 0 {
        Seq::empty()
    } else if tri_edge(tris, t, k - 1) == e {
        hits(tris, t, e, k - 1).push(t as usize)
    } else {
        hits(tris, t, e, k - 1)
    }
}

/// The triangles from `lo` up to `count` incident to `e`, in order, a
/// triangle once for each of its edges that is `e`.
pub open spec fn incidence(tris: Seq<usize>, lo: int, count: int, e: Edge) -> Seq<usize>
    decreases count - lo,
{
    if count <= lo {
        Seq::empty()
    } else {
        incidence(tris, lo, count - 1, e) + hits(tris, count - 1, e, 3)
    }
}

/// Whether `e` is an edge of the triangles from `lo` up to `t` or among the
/// first `k` edges of triangle `t`.
pub open spec fn edge_in_after(tris: Seq<usize>, lo: int, t: int, k: int, e: Edge) -> bool {
    edge_in(tris, lo, t, e) || exists|j: int| 0 <= j < k && #[trigger] tri_edge(tris, t, j) == e
}

/// The edges, lengths and incidence lists once the triangles from `lo` up
/// to `t` and the first `k` edges of triangle `t` are in.
pub open spec fn edges_after(points: Seq<Point>, tris: Seq<usize>, lo: int, t: int, k: int) -> Map<
    Edge,
    (u128, Seq<usize>),
> {
    Map::new(
        |e: Edge| edge_in_after(tris, lo, t, k, e),
        |e: Edge|
            (
                dist_sq(points[e.0 as int], points[e.1 as int]) as u128,
                incidence(tris, lo, t, e) + hits(tris, t, e, k),
            ),
    )
}

/// The graph holds the edges and adjacency of the triangles from `lo` up to
/// `t` and of the first `k` edges of triangle `t`.
pub open spec fn graph_after(
    g: GeometryData,
    points: Seq<Point>,
    tris: Seq<usize>,
    types: usize,
    lo: int,
    t: int,
    k: int,
) -> bool {
    &&& g.wf()
    &&& g.vertex_count() == points.len()
    &&& g.edge_map() == edges_after(points, tris, lo, t, k)
    &&& forall|a: int, b: usize|
        0 <= a < points.len() ==> (#[trigger] g.vertex_connections@[a]@.contains(b) <==> (
        with_connections(types) && edge_in_after(tris, lo, t, k, canon(a as usize, b))))
}

/// What the record of triangle `t` holds under build mode `types`.
pub open spec fn describes_triangle(
    d: TriangleData,
    points: Seq<Point>,
    tris: Seq<usize>,
    t: int,
    types: usize,
) -> bool {
    if with_triangles(types) {
        &&& d.index == t
        &&& d.double_area == Some(tri_double_area(points, tris, t) as u128)
        &&& d.terminal_edge == Some(tri_terminal(points, tris, t))
        &&& d.vertices@ == sorted3(corner(tris, t, 0), corner(tris, t, 1), corner(tris, t, 2))
    } else {
        &&& d.index == 0
        &&& d.double_area is None
        &&& d.terminal_edge is None
        &&& d.vertices@.len() == 0
    }
}

/// The graph is the one derived from the triangles from `lo` up to `hi` of
/// `tris` over `points` under build mode `types`; record `i` describes
/// triangle `lo + i`.
pub open spec fn range_graph(
    g: GeometryData,
    points: Seq<Point>,
    tris: Seq<usize>,
    types: usize,
    lo: int,
    hi: int,
) -> bool {
    &&& graph_after(g, points, tris, types, lo, hi, 0)
    &&& g.triangles@.len() == hi - lo
    &&& forall|i: int|
        0 <= i < hi - lo ==> describes_triangle(#[trigger] g.triangles@[i], points, tris, lo + i, types)
}

/// The graph is the one derived from the whole triangulation `tris` over
/// `points` under build mode `types`.
pub open spec fn built_from(
    g: GeometryData,
    points: Seq<Point>,
    tris: Seq<usize>,
    types: usize,
) -> bool {
    range_graph(g, points, tris, types, 0, tri_count(tris))
}

proof fn lemma_dist_sym(p: Point, q: Point)
    ensures
        dist_sq(p, q) == dist_sq(q, p),
{
    assert((q.x - p.x) * (q.x - p.x) == (p.x - q.x) * (p.x - q.x)) by (nonlinear_arith);
    assert((q.y - p.y) * (q.y - p.y) == (p.y - q.y) * (p.y - q.y)) by (nonlinear_arith);
}

proof fn lemma_hits_empty(tris: Seq<usize>, t: int, e: Edge, k: int)
    requires
        forall|j: int| 0 <= j < k ==> #[trigger] tri_edge(tris, t, j) != e,
    ensures
        hits(tris, t, e, k) == Seq::<usize>::empty(),
    decreases k,
{
    if k > 0 {
        lemma_hits_empty(tris, t, e, k - 1);
    }
}

pub proof fn lemma_incidence_empty(tris: Seq<usize>, lo: int, count: int, e: Edge)
    requires
        !edge_in(tris, lo, count, e),
    ensures
        incidence(tris, lo, count, e) == Seq::<usize>::empty(),
    decreases count - lo,
{
    if count > lo {
        assert(!edge_in(tris, lo, count - 1, e)) by {
            if edge_in(tris, lo, count - 1, e) {
                let (t, k) = choose|t: int, k: int|
                    lo <= t < count - 1 && 0 <= k < 3 && #[trigger] tri_edge(tris, t, k) == e;
                assert(tri_edge(tris, t, k) == e);
            }
        }
        lemma_incidence_empty(tris, lo, count - 1, e);
        assert forall|j: int| 0 <= j < 3 implies #[trigger] tri_edge(tris, count - 1, j) != e by {
            if tri_edge(tris, count - 1, j) == e {
                assert(edge_in(tris, lo, count, e));
            }
        }
        lemma_hits_empty(tris, count - 1, e, 3);
        assert(incidence(tris, lo, count, e) =~= Seq::<usize>::empty());
    }
}

proof fn lemma_graph_frame(
    g1: GeometryData,
    g2: GeometryData,
    points: Seq<Point>,
    tris: Seq<usize>,
    types: usize,
    lo: int,
    t: int,
)
    requires
        graph_after(g1, points, tris, types, lo, t, 0),
        g1.edges == g2.edges,
        g1.vertex_connections == g2.vertex_connections,
    ensures
        graph_after(g2, points, tris, types, lo, t, 0),
{
    assert(g1.edge_map() =~= g2.edge_map());
}

/// One more edge of triangle `t` moves the graph from `k` edges to `k + 1`.
proof fn lemma_edges_step(points: Seq<Point>, tris: Seq<usize>, lo: int, t: int, k: int, old_map: Map<
    Edge,
    (u128, Seq<usize>),
>, old_tris_of_e: Seq<usize>)
    requires
        0 <= k < 3,
        lo <= t,
        old_map == edges_after(points, tris, lo, t, k),
        old_tris_of_e == (if old_map.dom().contains(tri_edge(tris, t, k)) {
            old_map[tri_edge(tris, t, k)].1
        } else {
            Seq::empty()
        }),
    ensures
        old_map.insert(
            tri_edge(tris, t, k),
            (
                dist_sq(
                    points[tri_edge(tris, t, k).0 as int],
                    points[tri_edge(tris, t, k).1 as int],
                ) as u128,
                old_tris_of_e.push(t as usize),
            ),
        ) == edges_after(points, tris, lo, t, k + 1),
{
    let e = tri_edge(tris, t, k);
    let new_map = edges_after(points, tris, lo, t, k + 1);
    assert forall|f: Edge| #[trigger] edge_in_after(tris, lo, t, k + 1, f) == (edge_in_after(tris, lo, t, k, f) || f == e) by {
        if edge_in_after(tris, lo, t, k + 1, f) && !edge_in(tris, lo, t, f) {
            let j = choose|j: int| 0 <= j < k + 1 && #[trigger] tri_edge(tris, t, j) == f;
            if j < k {
                assert(edge_in_after(tris, lo, t, k, f));
            }
        }
        if f == e {
            assert(tri_edge(tris, t, k) == f);
        }
        if edge_in_after(tris, lo, t, k, f) && !edge_in(tris, lo, t, f) {
            let j = choose|j: int| 0 <= j < k && #[trigger] tri_edge(tris, t, j) == f;
            assert(tri_edge(tris, t, j) == f);
        }
    }
    if !old_map.dom().contains(e) {
        assert(!edge_in(tris, lo, t, e));
        lemma_incidence_empty(tris, lo, t, e);
        assert forall|j: int| 0 <= j < k implies #[trigger] tri_edge(tris, t, j) != e by {
            if tri_edge(tris, t, j) == e {
                assert(edge_in_after(tris, lo, t, k, e));
            }
        }
        lemma_hits_empty(tris, t, e, k);
        assert(incidence(tris, lo, t, e) + hits(tris, t, e, k) =~= Seq::<usize>::empty());
    }
    assert((incidence(tris, lo, t, e) + hits(tris, t, e, k)).push(t as usize) =~= incidence(tris, lo, t, e)
        + hits(tris, t, e, k + 1));
    assert forall|f: Edge| f != e implies #[trigger] hits(tris, t, f, k + 1) == hits(tris, t, f, k) by {}
    assert(old_map.insert(
        e,
        (
            dist_sq(points[e.0 as int], points[e.1 as int]) as u128,
            old_tris_of_e.push(t as usize),
        ),
    ) =~= new_map);
}

/// After all three edges of triangle `t` the graph holds the triangles from
/// `lo` up to `t + 1`.
proof fn lemma_triangle_done(points: Seq<Point>, tris: Seq<usize>, lo: int, t: int)
    requires
        lo <= t,
    ensures
        edges_after(points, tris, lo, t, 3) == edges_after(points, tris, lo, t + 1, 0),
        forall|e: Edge| #[trigger] edge_in_after(tris, lo, t, 3, e) == edge_in_after(tris, lo, t + 1, 0, e),
{
    assert forall|e: Edge| #[trigger] edge_in_after(tris, lo, t, 3, e) == edge_in_after(tris, lo, t + 1, 0, e) by {
        if edge_in_after(tris, lo, t, 3, e) {
            if edge_in(tris, lo, t, e) {
                let (s, j) = choose|s: int, j: int|
                    lo <= s < t && 0 <= j < 3 && #[trigger] tri_edge(tris, s, j) == e;
                assert(tri_edge(tris, s, j) == e);
            } else {
                let j = choose|j: int| 0 <= j < 3 && #[trigger] tri_edge(tris, t, j) == e;
                assert(tri_edge(tris, t, j) == e);
            }
        }
        if edge_in(tris, lo, t + 1, e) {
            let (s, j) = choose|s: int, j: int|
                lo <= s < t + 1 && 0 <= j < 3 && #[trigger] tri_edge(tris, s, j) == e;
            if s < t {
                assert(edge_in(tris, lo, t, e));
            } else {
                assert(tri_edge(tris, t, j) == e);
            }
        }
    }
    assert forall|e: Edge| #[trigger] hits(tris, t + 1, e, 0) == Seq::<usize>::empty() by {}
    assert forall|e: Edge|
        #[trigger] incidence(tris, lo, t + 1, e) == incidence(tris, lo, t, e) + hits(tris, t, e, 3) by {}
    assert(edges_after(points, tris, lo, t, 3) =~= edges_after(points, tris, lo, t + 1, 0));
}

impl GeometryData {
    /// Adds the `k`-th edge of triangle `t`: its length and incidence, and
    /// the adjacency of its endpoints where the mode keeps it.
    fn add_corner_edge(
        &mut self,
        points: &Vec<Point>,
        triangulation: &Vec<usize>,
        t: usize,
        k: usize,
        types: usize,
        Ghost(lo): Ghost<int>,
    )
        requires
            graph_after(*old(self), points@, triangulation@, types, lo, t as int, k as int),
            lo <= t,
            k < 3,
            3 * t + 3 <= triangulation@.len(),
            valid_range(points@.len(), triangulation@, t as int, t as int + 1),
        ensures
            graph_after(*final(self), points@, triangulation@, types, lo, t as int, k as int + 1),
            final(self).triangles == old(self).triangles,
    {
        let ghost pre = *self;
        proof {
            assert(triangulation@.len() == triangulation.len());
            assert(points@.len() == points.len());
        }
        let kn: usize = if k == 2 {
            0
        } else {
            k + 1
        };
        let u = triangulation[3 * t + k];
        let w = triangulation[3 * t + kn];
        let length_sq = points[u].squared_distance(&points[w]);
        let e = Edge::new(u, w);
        proof {
            assert(e == tri_edge(triangulation@, t as int, k as int));
            lemma_dist_sym(points@[u as int], points@[w as int]);
            lemma_edges_step(
                points@,
                triangulation@,
                lo,
                t as int,
                k as int,
                pre.edge_map(),
                pre.edge_triangles(e),
            );
        }
        self.record_edge(e, length_sq, Some(t));
        let ghost mid = *self;
        if types == 0 || types == 1 {
            self.connect(u, w);
        }
        proof {
            assert forall|a: int, b: usize| 0 <= a < points@.len() implies (
            #[trigger] self.vertex_connections@[a]@.contains(b) <==> (with_connections(types)
                && edge_in_after(triangulation@, lo, t as int, k as int + 1, canon(a as usize, b)))) by {
                assert(edge_in_after(triangulation@, lo, t as int, k as int + 1, canon(a as usize, b))
                    == (edge_in_after(triangulation@, lo, t as int, k as int, canon(a as usize, b))
                    || canon(a as usize, b) == e)) by {
                    assert((canon(a as usize, b) == e) == ((a == u && b == w) || (a == w && b == u)));
                    if canon(a as usize, b) == e {
                        assert(tri_edge(triangulation@, t as int, k as int) == canon(a as usize, b));
                    }
                    if edge_in_after(triangulation@, lo, t as int, k as int + 1, canon(a as usize, b))
                        && !edge_in(triangulation@, lo, t as int, canon(a as usize, b)) {
                        let j = choose|j: int|
                            0 <= j < k + 1 && #[trigger] tri_edge(triangulation@, t as int, j)
                                == canon(a as usize, b);
                        if j < k {
                            assert(tri_edge(triangulation@, t as int, j) == canon(a as usize, b));
                        }
                    }
                    if edge_in_after(triangulation@, lo, t as int, k as int, canon(a as usize, b))
                        && !edge_in(triangulation@, lo, t as int, canon(a as usize, b)) {
                        let j = choose|j: int|
                            0 <= j < k && #[trigger] tri_edge(triangulation@, t as int, j)
                                == canon(a as usize, b);
                        assert(tri_edge(triangulation@, t as int, j) == canon(a as usize, b));
                    }
                }
                if with_connections(types) {
                    assert(self.vertex_connections@[a]@.contains(b) <==> (
                        mid.vertex_connections@[a]@.contains(b) || (a == u && b == w) || (a == w && b == u)));
                } else {
                    assert(self.vertex_connections == pre.vertex_connections);
                }
            }
        }
    }

    /// Adds triangle `index`, the next one of the triangulation: its three
    /// edges and, where the mode keeps them, its record and adjacency.
    fn add_triangle(
        &mut self,
        index: usize,
        points: &Vec<Point>,
        triangulation: &Vec<usize>,
        types: usize,
        Ghost(lo): Ghost<int>,
    )
        requires
            graph_after(*old(self), points@, triangulation@, types, lo, index as int, 0),
            lo <= index,
            old(self).triangles@.len() == index - lo,
            3 * index + 3 <= triangulation@.len(),
            valid_range(points@.len(), triangulation@, index as int, index as int + 1),
        ensures
            graph_after(*final(self), points@, triangulation@, types, lo, index as int + 1, 0),
            final(self).triangles@ == old(self).triangles@.push(final(self).triangles@[index - lo]),
            describes_triangle(final(self).triangles@[index - lo], points@, triangulation@, index as int, types),
    {
        self.add_corner_edge(points, triangulation, index, 0, types, Ghost(lo));
        self.add_corner_edge(points, triangulation, index, 1, types, Ghost(lo));
        self.add_corner_edge(points, triangulation, index, 2, types, Ghost(lo));
        proof {
            lemma_triangle_done(points@, triangulation@, lo, index as int);
            assert(graph_after(*self, points@, triangulation@, types, lo, index as int + 1, 0));
        }
        let ghost g1 = *self;
        proof {
            assert(triangulation@.len() == triangulation.len());
        }
        let i0 = triangulation[3 * index];
        let i1 = triangulation[3 * index + 1];
        let i2 = triangulation[3 * index + 2];
        if types == 0 || types == 2 {
            let l0 = points[i0].squared_distance(&points[i1]);
            let l1 = points[i1].squared_distance(&points[i2]);
            let l2 = points[i2].squared_distance(&points[i0]);
            let slot = pick_terminal(l0, l1, l2);
            let terminal_edge = if slot == 0 {
                Edge::new(i0, i1)
            } else if slot == 1 {
                Edge::new(i1, i2)
            } else {
                Edge::new(i2, i0)
            };
            let double_area = triangle_double_area(&points[i0], &points[i1], &points[i2]);
            self.triangles.push(
                TriangleData {
                    index,
                    double_area: Some(double_area),
                    terminal_edge: Some(terminal_edge),
                    vertices: sort_three(i0, i1, i2),
                },
            );
        } else {
            self.triangles.push(TriangleData::empty());
        }
        proof {
            lemma_graph_frame(g1, *self, points@, triangulation@, types, lo, index as int + 1);
        }
    }
}

/// Builds the derived graph of the triangles from `first` up to `end` of
/// `triangulation` over `points`; record `i` describes triangle
/// `first + i`, and incidence lists name triangles by their index in the
/// whole triangulation. Graphs of consecutive ranges merge into the graph of
/// their union (see `GeometryData::merge`).
///
/// Mode `types` chooses what is kept besides edges: 0 keeps triangle
/// records and adjacency, 1 adjacency only, 2 triangle records only.
/// Refused when the index array does not split into triples, when the range
/// is not one of its triangles, or when a triangle of the range names a
/// vertex that is not among the points; nothing is built then.
pub fn build_graph_range(
    points: &Vec<Point>,
    triangulation: &Vec<usize>,
    types: usize,
    first: usize,
    end: usize,
) -> (r: Result<GeometryData, GraphError>)
    ensures
        triangulation@.len() % 3 != 0 ==> r == Err::<GeometryData, GraphError>(
            GraphError::MalformedTriangulation,
        ),
        triangulation@.len() % 3 == 0 && !(first <= end <= tri_count(triangulation@)) ==> r
            == Err::<GeometryData, GraphError>(GraphError::RangeOutOfBounds),
        triangulation@.len() % 3 == 0 && first <= end <= tri_count(triangulation@) && !valid_range(
            points@.len(),
            triangulation@,
            first as int,
            end as int,
        ) ==> r == Err::<GeometryData, GraphError>(GraphError::VertexOutOfRange),
        triangulation@.len() % 3 == 0 && first <= end <= tri_count(triangulation@) && valid_range(
            points@.len(),
            triangulation@,
            first as int,
            end as int,
        ) ==> (r matches Ok(g) && range_graph(
            g,
            points@,
            triangulation@,
            types,
            first as int,
            end as int,
        )),
{
    if triangulation.len() % 3 != 0 {
        return Err(GraphError::MalformedTriangulation);
    }
    let count = triangulation.len() / 3;
    if first > end || end > count {
        return Err(GraphError::RangeOutOfBounds);
    }
    assert(3 * end <= triangulation@.len());
    let stop: usize = 3 * end;
    let mut i: usize = 3 * first;
    while i < stop
        invariant
            triangulation@.len() % 3 == 0,
            count == tri_count(triangulation@),
            first <= end <= count,
            stop == 3 * end,
            3 * first <= i <= stop,
            forall|j: int| 3 * first <= j < i ==> #[trigger] triangulation@[j] < points@.len(),
        decreases stop - i,
    {
        if triangulation[i] >= points.len() {
            return Err(GraphError::VertexOutOfRange);
        }
        i = i + 1;
    }
    let mut g = GeometryData::new(points.len());
    proof {
        assert(g.edge_map() =~= edges_after(points@, triangulation@, first as int, first as int, 0));
    }
    let mut t: usize = first;
    while t < end
        invariant
            count == tri_count(triangulation@),
            first <= end <= count,
            valid_range(points@.len(), triangulation@, first as int, end as int),
            first <= t <= end,
            graph_after(g, points@, triangulation@, types, first as int, t as int, 0),
            g.triangles@.len() == t - first,
            forall|s: int|
                0 <= s < t - first ==> describes_triangle(#[trigger] g.triangles@[s], points@, triangulation@, first + s, types),
        decreases end - t,
    {
        let ghost before = g.triangles@;
        g.add_triangle(t, points, triangulation, types, Ghost(first as int));
        proof {
            assert forall|s: int| 0 <= s < t + 1 - first implies describes_triangle(
                #[trigger] g.triangles@[s],
                points@,
                triangulation@,
                first + s,
                types,
            ) by {
                if s < t - first {
                    assert(g.triangles@[s] == before[s]);
                }
            }
        }
        t = t + 1;
    }
    Ok(g)
}

/// Builds the derived graph of `triangulation` over `points`.
///
/// Mode `types` chooses what is kept besides edges: 0 keeps triangle
/// records and adjacency, 1 adjacency only, 2 triangle records only.
/// Refused when the index array does not split into triples or names a
/// vertex that is not among the points; nothing is built then.
pub fn build_graph(points: &Vec<Point>, triangulation: &Vec<usize>, types: usize) -> (r: Result<
    GeometryData,
    GraphError,
>)
    ensures
        triangulation@.len() % 3 != 0 ==> r == Err::<GeometryData, GraphError>(
            GraphError::MalformedTriangulation,
        ),
        triangulation@.len() % 3 == 0 && !valid_triangulation(points@.len(), triangulation@) ==> r
            == Err::<GeometryData, GraphError>(GraphError::VertexOutOfRange),
        valid_triangulation(points@.len(), triangulation@) ==> (r matches Ok(g) && built_from(
            g,
            points@,
            triangulation@,
            types,
        )),
{
    let count = triangulation.len() / 3;
    proof {
        if triangulation@.len() % 3 == 0 {
            assert(3 * count == triangulation@.len());
            assert(valid_triangulation(points@.len(), triangulation@) == valid_range(
                points@.len(),
                triangulation@,
                0,
                count as int,
            ));
        }
    }
    build_graph_range(points, triangulation, types, 0, count)
}

proof fn lemma_dist_sq_bounds(p: Point, q: Point)
    ensures
        0 <= dist_sq(p, q) <= 0x2_0000_0000_0000_0000,
{
    let dx = q.x - p.x;
    let dy = q.y - p.y;
    assert(0 <= dx * dx <= 0x1_0000_0000_0000_0000) by (nonlinear_arith)
        requires
            -0x1_0000_0000 <= dx <= 0x1_0000_0000,
    ;
    assert(0 <= dy * dy <= 0x1_0000_0000_0000_0000) by (nonlinear_arith)
        requires
            -0x1_0000_0000 <= dy <= 0x1_0000_0000,
    ;
}

/// The squared length the graph holds for edge `k` of triangle `t`.
proof fn lemma_tri_edge_length(g: GeometryData, points: Seq<Point>, tris: Seq<usize>, types: usize, t: int, k: int)
    requires
        built_from(g, points, tris, types),
        0 <= t < tri_count(tris),
        0 <= k < 3,
    ensures
        g.edge_length(tri_edge(tris, t, k)) == Some(tri_edge_len(points, tris, t, k) as u128),
        0 <= tri_edge_len(points, tris, t, k) <= 0x2_0000_0000_0000_0000,
{
    let e = tri_edge(tris, t, k);
    assert(edge_in_after(tris, 0, tri_count(tris), 0, e));
    assert(g.edge_map().dom().contains(e));
    assert(g.holds_edge(e));
    lemma_dist_sym(points[corner(tris, t, k) as int], points[corner(tris, t, next3(k)) as int]);
    lemma_dist_sq_bounds(points[corner(tris, t, k) as int], points[corner(tris, t, next3(k)) as int]);
    assert(g.edge_map()[e].0 == g.record(e).length_sq);
    assert(g.edge_map()[e] == edges_after(points, tris, 0, tri_count(tris), 0)[e]);
    assert(dist_sq(points[e.0 as int], points[e.1 as int]) == tri_edge_len(points, tris, t, k));
}

/// Law: the terminal edge of a triangle is at least as long as each of the
/// triangle's edges, by the lengths the graph holds.
pub proof fn lemma_terminal_edge_longest(
    g: GeometryData,
    points: Seq<Point>,
    tris: Seq<usize>,
    types: usize,
    t: int,
    k: int,
)
    requires
        built_from(g, points, tris, types),
        with_triangles(types),
        0 <= t < tri_count(tris),
        0 <= k < 3,
    ensures
        g.triangles@[t].terminal_edge matches Some(te) && g.edge_length(te) matches Some(lt)
            && g.edge_length(tri_edge(tris, t, k)) matches Some(lk) && lk <= lt,
{
    let slot = terminal_slot(
        tri_edge_len(points, tris, t, 0),
        tri_edge_len(points, tris, t, 1),
        tri_edge_len(points, tris, t, 2),
    );
    assert(describes_triangle(g.triangles@[t], points, tris, t, types));
    lemma_tri_edge_length(g, points, tris, types, t, 0);
    lemma_tri_edge_length(g, points, tris, types, t, 1);
    lemma_tri_edge_length(g, points, tris, types, t, 2);
    lemma_tri_edge_length(g, points, tris, types, t, slot);
}

/// Edge `e` is one of the edges of triangle `t`.
pub open spec fn edge_of_tri(tris: Seq<usize>, t: int, e: Edge) -> bool {
    exists|k: int| 0 <= k < 3 && #[trigger] tri_edge(tris, t, k) == e
}

/// A triangulation is manifold: each triangle has three distinct corners,
/// and no edge belongs to three triangles.
pub open spec fn manifold(tris: Seq<usize>) -> bool {
    &&& forall|t: int|
        0 <= t < tri_count(tris) ==> corner(tris, t, 0) != corner(tris, t, 1) && corner(tris, t, 1)
            != #[trigger] corner(tris, t, 2) && corner(tris, t, 2) != corner(tris, t, 0)
    &&& forall|t1: int, t2: int, t3: int, e: Edge|
        0 <= t1 < t2 < t3 < tri_count(tris) && #[trigger] edge_of_tri(tris, t1, e)
            && #[trigger] edge_of_tri(tris, t2, e) ==> !#[trigger] edge_of_tri(tris, t3, e)
}

proof fn lemma_hits_distinct(tris: Seq<usize>, t: int, e: Edge)
    requires
        corner(tris, t, 0) != corner(tris, t, 1),
        corner(tris, t, 1) != corner(tris, t, 2),
        corner(tris, t, 2) != corner(tris, t, 0),
    ensures
        edge_of_tri(tris, t, e) ==> hits(tris, t, e, 3) == seq![t as usize],
        !edge_of_tri(tris, t, e) ==> hits(tris, t, e, 3) == Seq::<usize>::empty(),
{
    let e0 = tri_edge(tris, t, 0);
    let e1 = tri_edge(tris, t, 1);
    let e2 = tri_edge(tris, t, 2);
    assert(e0 != e1 && e1 != e2 && e0 != e2);
    if edge_of_tri(tris, t, e) {
        let k = choose|k: int| 0 <= k < 3 && #[trigger] tri_edge(tris, t, k) == e;
        assert(hits(tris, t, e, 0) =~= Seq::<usize>::empty());
        if k == 0 {
            assert(hits(tris, t, e, 1) =~= seq![t as usize]);
            assert(hits(tris, t, e, 2) =~= seq![t as usize]);
            assert(hits(tris, t, e, 3) =~= seq![t as usize]);
        } else if k == 1 {
            assert(hits(tris, t, e, 1) =~= Seq::<usize>::empty());
            assert(hits(tris, t, e, 2) =~= seq![t as usize]);
            assert(hits(tris, t, e, 3) =~= seq![t as usize]);
        } else {
            assert(hits(tris, t, e, 1) =~= Seq::<usize>::empty());
            assert(hits(tris, t, e, 2) =~= Seq::<usize>::empty());
            assert(hits(tris, t, e, 3) =~= seq![t as usize]);
        }
    } else {
        assert(tri_edge(tris, t, 0) != e && tri_edge(tris, t, 1) != e && tri_edge(tris, t, 2) != e);
        assert(hits(tris, t, e, 0) =~= Seq::<usize>::empty());
        assert(hits(tris, t, e, 1) =~= Seq::<usize>::empty());
        assert(hits(tris, t, e, 2) =~= Seq::<usize>::empty());
        assert(hits(tris, t, e, 3) =~= Seq::<usize>::empty());
    }
}

/// With distinct corners, the incidence list of `e` names, in ascending
/// order, the triangles that have `e` as an edge.
proof fn lemma_incidence_sorted(tris: Seq<usize>, c: int, e: Edge)
    requires
        0 <= c <= tri_count(tris),
        tris.len() <= usize::MAX,
        manifold(tris),
    ensures
        forall|i: int|
            0 <= i < incidence(tris, 0, c, e).len() ==> (#[trigger] incidence(tris, 0, c, e)[i] as int) < c
                && edge_of_tri(tris, incidence(tris, 0, c, e)[i] as int, e),
        forall|i: int, j: int|
            0 <= i < j < incidence(tris, 0, c, e).len() ==> incidence(tris, 0, c, e)[i]
                < incidence(tris, 0, c, e)[j],
        forall|t: int| 0 <= t < c && edge_of_tri(tris, t, e) ==> incidence(tris, 0, c, e).len() > 0,
    decreases c,
{
    if c > 0 {
        lemma_incidence_sorted(tris, c - 1, e);
        assert(corner(tris, c - 1, 1) != corner(tris, c - 1, 2));
        lemma_hits_distinct(tris, c - 1, e);
        let prev = incidence(tris, 0, c - 1, e);
        let cur = incidence(tris, 0, c, e);
        assert(cur == prev + hits(tris, c - 1, e, 3));
        assert(((c - 1) as usize) as int == c - 1);
        assert forall|i: int| 0 <= i < cur.len() implies (#[trigger] cur[i] as int) < c
            && edge_of_tri(tris, cur[i] as int, e) by {
            if i < prev.len() {
                assert(cur[i] == prev[i]);
            } else {
                assert(cur[i] == hits(tris, c - 1, e, 3)[i - prev.len()]);
            }
        }
        assert forall|i: int, j: int| 0 <= i < j < cur.len() implies cur[i] < cur[j] by {
            if j < prev.len() {
                assert(cur[i] == prev[i] && cur[j] == prev[j]);
            } else if i < prev.len() {
                assert(cur[i] == prev[i]);
                assert(cur[j] == hits(tris, c - 1, e, 3)[j - prev.len()]);
            } else {
                assert(cur[i] == hits(tris, c - 1, e, 3)[i - prev.len()]);
                assert(cur[j] == hits(tris, c - 1, e, 3)[j - prev.len()]);
            }
        }
        assert forall|t: int| 0 <= t < c && edge_of_tri(tris, t, e) implies cur.len() > 0 by {
            if t == c - 1 {
                assert(hits(tris, c - 1, e, 3).len() == 1);
            } else {
                assert(prev.len() > 0);
            }
        }
    }
}

/// Law: in the graph of a manifold triangulation every edge has one or two
/// incident triangles.
pub proof fn lemma_edge_incidence_one_or_two(
    g: GeometryData,
    points: Seq<Point>,
    tris: Seq<usize>,
    types: usize,
    e: Edge,
)
    requires
        built_from(g, points, tris, types),
        tris.len() <= usize::MAX,
        manifold(tris),
        g.holds_edge(e),
    ensures
        1 <= g.edge_triangles(e).len() <= 2,
{
    let count = tri_count(tris);
    assert(g.edge_map().dom().contains(e));
    assert(edge_in_after(tris, 0, count, 0, e));
    assert(g.edge_triangles(e) == g.edge_map()[e].1);
    assert(g.edge_triangles(e) =~= incidence(tris, 0, count, e) + hits(tris, count, e, 0));
    assert(g.edge_triangles(e) =~= incidence(tris, 0, count, e));
    lemma_incidence_sorted(tris, count, e);
    let (t, k) = choose|t: int, k: int| 0 <= t < count && 0 <= k < 3 && #[trigger] tri_edge(tris, t, k) == e;
    assert(edge_of_tri(tris, t, e));
    let inc = incidence(tris, 0, count, e);
    if inc.len() > 2 {
        assert(edge_of_tri(tris, inc[0] as int, e));
        assert(edge_of_tri(tris, inc[1] as int, e));
        assert(edge_of_tri(tris, inc[2] as int, e));
        assert(inc[0] < inc[1] < inc[2]);
    }
}

/// Law: adjacency is symmetric in every well-formed graph, the built ones
/// among them.
pub proof fn lemma_connections_symmetric(g: GeometryData, a: usize, b: usize)
    requires
        g.wf(),
        a < g.vertex_count(),
        b < g.vertex_count(),
    ensures
        g.vertex_connections@[a as int]@.contains(b) <==> g.vertex_connections@[b as int]@.contains(a),
{
}

/// Law: in a graph built with adjacency, a vertex has neighbours exactly
/// when it is a corner of some triangle.
pub proof fn lemma_connected_vertices(
    g: GeometryData,
    points: Seq<Point>,
    tris: Seq<usize>,
    types: usize,
    a: usize,
)
    requires
        built_from(g, points, tris, types),
        with_connections(types),
        (a as int) < points.len(),
    ensures
        g.vertex_connections@[a as int]@.len() > 0 <==> exists|t: int, k: int|
            0 <= t < tri_count(tris) && 0 <= k < 3 && #[trigger] corner(tris, t, k) == a,
{
    let count = tri_count(tris);
    if exists|t: int, k: int| 0 <= t < count && 0 <= k < 3 && #[trigger] corner(tris, t, k) == a {
        let (t, k) = choose|t: int, k: int| 0 <= t < count && 0 <= k < 3 && #[trigger] corner(tris, t, k) == a;
        let b = corner(tris, t, next3(k));
        assert(tri_edge(tris, t, k) == canon(a, b));
        assert(edge_in(tris, 0, count, canon(a, b)));
        assert(edge_in_after(tris, 0, count, 0, canon(a, b)));
        assert(g.vertex_connections@[a as int]@.contains(b));
    }
    if g.vertex_connections@[a as int]@.len() > 0 {
        let b = g.vertex_connections@[a as int]@[0];
        assert(g.vertex_connections@[a as int]@.contains(b));
        assert(edge_in_after(tris, 0, count, 0, canon(a, b)));
        let (t, k) = choose|t: int, k: int| 0 <= t < count && 0 <= k < 3 && #[trigger] tri_edge(tris, t, k) == canon(a, b);
        if corner(tris, t, k) == a {
            assert(corner(tris, t, k) == a);
        } else {
            assert(corner(tris, t, next3(k)) == a);
            assert(0 <= next3(k) < 3);
        }
    }
}

} // verus!

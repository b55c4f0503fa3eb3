//! The 3D adapter: edge lengths and vertex adjacency from a tetrahedral mesh,
//! for DTSCAN.
use vstd::prelude::*;

use simple_delaunay_lib::delaunay_3d::delaunay_struct_3d::DelaunayStructure3D;
use simple_delaunay_lib::delaunay_3d::simplicial_struct_3d::Node;

use crate::geometry::{canon, Edge};
use crate::graph::GeometryData;

verus! {

/// A point of space on the integer grid.
#[derive(Debug, Clone, Copy, PartialEq, Eq, Structural)]
pub struct Point3D {
    pub x: i32,
    pub y: i32,
    pub z: i32,
}

/// The squared Euclidean distance between two points of space.
pub open spec fn dist_sq3(p: Point3D, q: Point3D) -> int {
    (q.x - p.x) * (q.x - p.x) + (q.y - p.y) * (q.y - p.y) + (q.z - p.z) * (q.z - p.z)
}

proof fn lemma_square_bound(d: int)
    requires
        -0x1_0000_0000 <= d <= 0x1_0000_0000,
    ensures
        0 <= d * d <= 0x1_0000_0000_0000_0000,
{
    assert(0 <= d * d <= 0x1_0000_0000_0000_0000) by (nonlinear_arith)
        requires
            -0x1_0000_0000 <= d <= 0x1_0000_0000,
    ;
}

impl Point3D {
    pub fn new(coords: (i32, i32, i32)) -> (r: Point3D)
        ensures
            r.x == coords.0,
            r.y == coords.1,
            r.z == coords.2,
    {
        Point3D { x: coords.0, y: coords.1, z: coords.2 }
    }

    /// The squared distance to `other`.
    pub fn squared_distance(&self, other: &Point3D) -> (r: u128)
        ensures
            r == dist_sq3(*self, *other),
    {
        let dx: i128 = other.x as i128 - self.x as i128;
        let dy: i128 = other.y as i128 - self.y as i128;
        let dz: i128 = other.z as i128 - self.z as i128;
        proof {
            lemma_square_bound(dx as int);
            lemma_square_bound(dy as int);
            lemma_square_bound(dz as int);
        }
        (dx * dx + dy * dy + dz * dz) as u128
    }
}

/// A cell of a tetrahedral mesh: four nodes, each a vertex index, or `None`
/// for the node at infinity of a cell on the convex hull.
pub type Cell = [Option<usize>; 4];

/// The first position of the `q`-th pair of positions in a cell.
pub open spec fn pair_first(q: int) -> int {
    if q < 3 {
        0
    } else if q < 5 {
        1
    } else {
        2
    }
}

/// The second position of the `q`-th pair of positions in a cell.
pub open spec fn pair_second(q: int) -> int {
    if q < 3 {
        q + 1
    } else if q < 5 {
        q - 1
    } else {
        3
    }
}

/// A cell is registered: at most one node is at infinity and the others are
/// vertices of the mesh.
pub open spec fn usable(c: Cell, n: nat) -> bool {
    &&& outer_count(c) <= 1
    &&& forall|i: int| 0 <= i < 4 ==> (#[trigger] c@[i] matches Some(v) ==> v < n)
}

/// How many nodes of the cell are at infinity.
pub open spec fn outer_count(c: Cell) -> int {
    (if c@[0] is None { 1int } else { 0int }) + (if c@[1] is None { 1int } else { 0int }) + (if c@[2] is None { 1int } else { 0int }) + (if c@[3] is None { 1int } else { 0int })
}

/// The pairs a cell joins, in position order.
pub open spec fn cell_pairs(c: Cell) -> Set<(usize, usize)> {
    Set::new(|p: (usize, usize)| cell_links_upto(c, 6, p.0, p.1))
}

/// Whether a cell is registered.
pub fn cell_usable(cell: &Cell, n: usize) -> (r: bool)
    ensures
        r == usable(*cell, n as nat),
{
    let mut outer: usize = 0;
    let mut i: usize = 0;
    while i < 4
        invariant
            i <= 4,
            outer as int == (if i > 0 && cell@[0] is None { 1int } else { 0int }) + (if i > 1 && cell@[1] is None { 1int } else { 0int }) + (if i > 2 && cell@[2] is None { 1int } else { 0int }) + (if i > 3 && cell@[3] is None { 1int } else { 0int }),
            forall|j: int| 0 <= j < i ==> (#[trigger] cell@[j] matches Some(v) ==> v < n),
        decreases 4 - i,
    {
        assert(cell[i as int] == cell@[i as int]);
        match cell[i] {
            None => {
                outer = outer + 1;
            },
            Some(v) => {
                if v >= n {
                    assert(cell@[i as int] == Some(v));
                    return false;
                }
            },
        }
        i = i + 1;
    }
    outer <= 1
}

/// Among the first `q` pairs of positions of the cell, one holds `a` and
/// then `b`.
pub open spec fn cell_links_upto(c: Cell, q: int, a: usize, b: usize) -> bool {
    exists|p: int|
        0 <= p < q && #[trigger] c@[pair_first(p)] == Some(a) && c@[pair_second(p)] == Some(b)
}

/// A registered cell among the first `upto` joins `a` to `b`.
pub open spec fn mesh_links(cells: Seq<Cell>, n: nat, upto: int, a: usize, b: usize) -> bool {
    exists|k: int|
        0 <= k < upto && usable(cells[k], n) && #[trigger] cell_links_upto(cells[k], 6, a, b)
}

/// `a` and `b` are a pair of `p`, in either order.
pub open spec fn linked(p: Set<(usize, usize)>, a: usize, b: usize) -> bool {
    p.contains((a, b)) || p.contains((b, a))
}

/// The edges `m` with the pairs of `p` joined: the edge of each such pair
/// takes its squared length between `nodes`, and keeps its incidence list
/// (an empty one where `m` has not held the edge); the other edges stay.
pub open spec fn with_pairs(
    m: Map<Edge, (u128, Seq<usize>)>,
    nodes: Seq<Point3D>,
    p: Set<(usize, usize)>,
) -> Map<Edge, (u128, Seq<usize>)> {
    Map::new(
        |e: Edge| m.dom().contains(e) || (e.0 <= e.1 && linked(p, e.0, e.1)),
        |e: Edge|
            if e.0 <= e.1 && linked(p, e.0, e.1) {
                (
                    dist_sq3(nodes[e.0 as int], nodes[e.1 as int]) as u128,
                    if m.dom().contains(e) {
                        m[e].1
                    } else {
                        Seq::empty()
                    },
                )
            } else {
                m[e]
            },
    )
}

/// `g` is `g0`, laid out for the vertices of `nodes`, with the pairs of `p`
/// joined: their edges with their squared lengths, and their adjacency in
/// both directions. Triangle records and incidence lists stay as they were.
pub open spec fn joined_from(
    g: GeometryData,
    g0: GeometryData,
    nodes: Seq<Point3D>,
    p: Set<(usize, usize)>,
) -> bool {
    &&& g.wf()
    &&& g.vertex_count() == nodes.len()
    &&& g0.vertex_count() <= nodes.len()
    &&& g.edge_map() == with_pairs(g0.edge_map(), nodes, p)
    &&& forall|a: int, b: usize|
        0 <= a < nodes.len() ==> (#[trigger] g.vertex_connections@[a]@.contains(b) <==> ((a
            < g0.vertex_count() && g0.vertex_connections@[a]@.contains(b)) || linked(p, a as usize, b)))
    &&& g.triangles == g0.triangles
}

/// Joining `p` and then `q` joins both.
proof fn lemma_joined_twice(
    g0: GeometryData,
    g1: GeometryData,
    g2: GeometryData,
    nodes: Seq<Point3D>,
    p: Set<(usize, usize)>,
    q: Set<(usize, usize)>,
)
    requires
        joined_from(g1, g0, nodes, p),
        joined_from(g2, g1, nodes, q),
    ensures
        joined_from(g2, g0, nodes, p.union(q)),
{
    let pq = p.union(q);
    assert forall|a: usize, b: usize| #[trigger] linked(pq, a, b) == (linked(p, a, b) || linked(q, a, b)) by {}
    let want = with_pairs(g0.edge_map(), nodes, pq);
    let got = with_pairs(with_pairs(g0.edge_map(), nodes, p), nodes, q);
    assert(want.dom() =~= got.dom());
    assert forall|e: Edge| want.dom().contains(e) implies #[trigger] want[e] == got[e] by {
        assert(linked(pq, e.0, e.1) == (linked(p, e.0, e.1) || linked(q, e.0, e.1)));
    }
    assert(want =~= got);
    assert forall|a: int, b: usize| 0 <= a < nodes.len() implies (#[trigger] g2.vertex_connections@[a]@.contains(b) <==> ((a
        < g0.vertex_count() && g0.vertex_connections@[a]@.contains(b)) || linked(pq, a as usize, b))) by {
        assert(g2.vertex_connections@[a]@.contains(b) <==> (g1.vertex_connections@[a]@.contains(b) || linked(q, a as usize, b)));
        assert(g1.vertex_connections@[a]@.contains(b) <==> ((a < g0.vertex_count() && g0.vertex_connections@[a]@.contains(b))
            || linked(p, a as usize, b)));
        assert(linked(pq, a as usize, b) == (linked(p, a as usize, b) || linked(q, a as usize, b)));
    }
}

/// Laying a graph out for more vertices and then joining pairs joins them
/// into the graph as it was.
pub proof fn lemma_extended_joined(
    g0: GeometryData,
    g1: GeometryData,
    g2: GeometryData,
    nodes: Seq<Point3D>,
    p: Set<(usize, usize)>,
)
    requires
        g0.vertex_count() <= nodes.len(),
        g1.vertex_count() == nodes.len(),
        g1.edge_map() == g0.edge_map(),
        g1.triangles == g0.triangles,
        forall|a: int, b: usize|
            0 <= a < nodes.len() ==> (#[trigger] g1.vertex_connections@[a]@.contains(b) <==> (a
                < g0.vertex_count() && g0.vertex_connections@[a]@.contains(b))),
        joined_from(g2, g1, nodes, p),
    ensures
        joined_from(g2, g0, nodes, p),
{
    assert forall|a: int, b: usize| 0 <= a < nodes.len() implies (#[trigger] g2.vertex_connections@[a]@.contains(b) <==> ((a
        < g0.vertex_count() && g0.vertex_connections@[a]@.contains(b)) || linked(p, a as usize, b))) by {
        assert(g1.vertex_connections@[a]@.contains(b) <==> (a < g0.vertex_count() && g0.vertex_connections@[a]@.contains(b)));
    }
}

/// Joining nothing changes nothing.
proof fn lemma_joined_none(g: GeometryData, nodes: Seq<Point3D>)
    requires
        g.wf(),
        g.vertex_count() == nodes.len(),
    ensures
        joined_from(g, g, nodes, Set::<(usize, usize)>::empty()),
{
    assert(with_pairs(g.edge_map(), nodes, Set::<(usize, usize)>::empty()) =~= g.edge_map());
}

/// The pairs joined by the registered cells among the first `upto`.
pub open spec fn mesh_pairs(cells: Seq<Cell>, n: nat, upto: int) -> Set<(usize, usize)> {
    Set::new(|p: (usize, usize)| mesh_links(cells, n, upto, p.0, p.1))
}

impl GeometryData {
    /// Joins the vertices `a` and `b`: the edge between them, with its
    /// squared length, and their adjacency.
    pub fn join_vertices(&mut self, nodes: &Vec<Point3D>, a: usize, b: usize)
        requires
            old(self).wf(),
            old(self).vertex_count() == nodes@.len(),
            a < nodes@.len(),
            b < nodes@.len(),
        ensures
            final(self).wf(),
            final(self).vertex_count() == nodes@.len(),
            final(self).triangles == old(self).triangles,
            final(self).edge_map() == old(self).edge_map().insert(
                canon(a, b),
                (
                    dist_sq3(nodes@[canon(a, b).0 as int], nodes@[canon(a, b).1 as int]) as u128,
                    old(self).edge_triangles(canon(a, b)),
                ),
            ),
            forall|v: int, x: usize|
                0 <= v < nodes@.len() ==> (#[trigger] final(self).vertex_connections@[v]@.contains(x)
                    <==> (old(self).vertex_connections@[v]@.contains(x) || (v == a && x == b) || (v
                    == b && x == a))),
    {
        let e = Edge::new(a, b);
        let length_sq = nodes[e.0].squared_distance(&nodes[e.1]);
        self.record_edge(e, length_sq, None);
        self.connect(a, b);
    }
}

proof fn lemma_links_step(cell: Cell, q: int, a: usize, b: usize)
    requires
        0 <= q < 6,
        cell@[pair_first(q)] == Some(a),
        cell@[pair_second(q)] == Some(b),
    ensures
        Set::new(|p: (usize, usize)| cell_links_upto(cell, q + 1, p.0, p.1)) == Set::new(
            |p: (usize, usize)| cell_links_upto(cell, q, p.0, p.1),
        ).insert((a, b)),
{
    assert forall|p: (usize, usize)| cell_links_upto(cell, q + 1, p.0, p.1) == (cell_links_upto(cell, q, p.0, p.1) || p == (a, b)) by {
        if cell_links_upto(cell, q + 1, p.0, p.1) {
            let w = choose|w: int| 0 <= w < q + 1 && #[trigger] cell@[pair_first(w)] == Some(p.0) && cell@[pair_second(w)] == Some(p.1);
            if w < q {
                assert(cell_links_upto(cell, q, p.0, p.1));
            }
        }
        if p == (a, b) {
            assert(cell@[pair_first(q)] == Some(p.0));
        }
        if cell_links_upto(cell, q, p.0, p.1) {
            let w = choose|w: int| 0 <= w < q && #[trigger] cell@[pair_first(w)] == Some(p.0) && cell@[pair_second(w)] == Some(p.1);
            assert(cell@[pair_first(w)] == Some(p.0));
        }
    }
    assert(Set::new(|p: (usize, usize)| cell_links_upto(cell, q + 1, p.0, p.1)) =~= Set::new(
        |p: (usize, usize)| cell_links_upto(cell, q, p.0, p.1),
    ).insert((a, b)));
}

/// Joining one more pair.
proof fn lemma_join_step(
    g0: GeometryData,
    g: GeometryData,
    g1: GeometryData,
    nodes: Seq<Point3D>,
    p: Set<(usize, usize)>,
    a: usize,
    b: usize,
)
    requires
        joined_from(g, g0, nodes, p),
        a < nodes.len(),
        b < nodes.len(),
        nodes.len() <= usize::MAX,
        g1.wf(),
        g1.vertex_count() == nodes.len(),
        g1.triangles == g.triangles,
        g1.edge_map() == g.edge_map().insert(
            canon(a, b),
            (
                dist_sq3(nodes[canon(a, b).0 as int], nodes[canon(a, b).1 as int]) as u128,
                g.edge_triangles(canon(a, b)),
            ),
        ),
        forall|v: int, x: usize|
            0 <= v < nodes.len() ==> (#[trigger] g1.vertex_connections@[v]@.contains(x) <==> (
            g.vertex_connections@[v]@.contains(x) || (v == a && x == b) || (v == b && x == a))),
    ensures
        joined_from(g1, g0, nodes, p.insert((a, b))),
{
    let p1 = p.insert((a, b));
    let e = canon(a, b);
    assert forall|x: usize, y: usize| #[trigger] linked(p1, x, y) == (linked(p, x, y) || (x == a && y == b) || (x == b && y == a)) by {}
    if g.holds_edge(e) {
        assert(g.edge_map().dom().contains(e));
        assert(g.edge_triangles(e) == g.edge_map()[e].1);
    } else {
        assert(!g.edge_map().dom().contains(e));
        assert(g.edge_triangles(e) =~= Seq::<usize>::empty());
    }
    let want = with_pairs(g0.edge_map(), nodes, p1);
    let got = g.edge_map().insert(e, (dist_sq3(nodes[e.0 as int], nodes[e.1 as int]) as u128, g.edge_triangles(e)));
    assert(linked(p1, e.0, e.1));
    assert(want.dom() =~= got.dom());
    assert forall|f: Edge| want.dom().contains(f) implies #[trigger] want[f] == got[f] by {
        if f != e {
            assert(linked(p1, f.0, f.1) == linked(p, f.0, f.1));
        }
    }
    assert(want =~= got);
    assert forall|v: int, x: usize| 0 <= v < nodes.len() implies (#[trigger] g1.vertex_connections@[v]@.contains(x) <==> ((v
        < g0.vertex_count() && g0.vertex_connections@[v]@.contains(x)) || linked(p1, v as usize, x))) by {
        assert(g.vertex_connections@[v]@.contains(x) <==> ((v < g0.vertex_count() && g0.vertex_connections@[v]@.contains(x))
            || linked(p, v as usize, x)));
        assert(linked(p1, v as usize, x) == (linked(p, v as usize, x) || (v as usize == a && x == b) || (v as usize == b && x == a)));
    }
}

impl GeometryData {
    /// Registers one mesh cell where it is usable: joins every two of its
    /// vertices. A cell with more than one node at infinity, or naming a
    /// vertex outside the mesh, is passed over.
    pub fn register_cell(&mut self, nodes: &Vec<Point3D>, cell: &Cell) -> (r: bool)
        requires
            old(self).wf(),
            old(self).vertex_count() == nodes@.len(),
        ensures
            r == usable(*cell, nodes@.len()),
            joined_from(
                *final(self),
                *old(self),
                nodes@,
                if r {
                    cell_pairs(*cell)
                } else {
                    Set::empty()
                },
            ),
    {
        let ghost g0 = *self;
        let ghost joined = Set::<(usize, usize)>::empty();
        proof {
            assert(nodes@.len() == nodes.len());
            lemma_joined_none(*self, nodes@);
        }
        if !cell_usable(cell, nodes.len()) {
            return false;
        }
        let ghost mut done: Set<(usize, usize)> = joined;
        proof {
            assert(done =~= joined.union(Set::new(|p: (usize, usize)| cell_links_upto(*cell, 0, p.0, p.1))));
        }
        let mut q: usize = 0;
        while q < 6
            invariant
                q <= 6,
                usable(*cell, nodes@.len()),
                nodes@.len() <= usize::MAX,
                done == joined.union(Set::new(|p: (usize, usize)| cell_links_upto(*cell, q as int, p.0, p.1))),
                joined_from(*self, g0, nodes@, done),
            decreases 6 - q,
        {
            let i: usize = if q < 3 {
                0
            } else if q < 5 {
                1
            } else {
                2
            };
            let j: usize = if q < 3 {
                q + 1
            } else if q < 5 {
                q - 1
            } else {
                3
            };
            let ghost d0 = done;
            match (cell[i], cell[j]) {
                (Some(a), Some(b)) => {
                    proof {
                        assert(cell@[i as int] == Some(a));
                        assert(cell@[j as int] == Some(b));
                    }
                    let ghost g = *self;
                    self.join_vertices(nodes, a, b);
                    proof {
                        lemma_join_step(g0, g, *self, nodes@, d0, a, b);
                        done = d0.insert((a, b));
                        lemma_links_step(*cell, q as int, a, b);
                        assert(done =~= joined.union(Set::new(|p: (usize, usize)| cell_links_upto(*cell, q as int + 1, p.0, p.1))));
                    }
                },
                _ => {
                    proof {
                        assert(done =~= joined.union(Set::new(|p: (usize, usize)| cell_links_upto(*cell, q as int + 1, p.0, p.1)))) by {
                            assert forall|p: (usize, usize)| cell_links_upto(*cell, q as int + 1, p.0, p.1) == cell_links_upto(*cell, q as int, p.0, p.1) by {
                                if cell_links_upto(*cell, q as int + 1, p.0, p.1) {
                                    let w = choose|w: int| 0 <= w < q + 1 && #[trigger] cell@[pair_first(w)] == Some(p.0) && cell@[pair_second(w)] == Some(p.1);
                                    if w < q {
                                        assert(cell_links_upto(*cell, q as int, p.0, p.1));
                                    } else {
                                        assert(cell@[i as int] == Some(p.0));
                                    }
                                }
                                if cell_links_upto(*cell, q as int, p.0, p.1) {
                                    let w = choose|w: int| 0 <= w < q && #[trigger] cell@[pair_first(w)] == Some(p.0) && cell@[pair_second(w)] == Some(p.1);
                                    assert(cell@[pair_first(w)] == Some(p.0));
                                }
                            }
                        }
                    }
                },
            }
            q = q + 1;
        }
        proof {
            assert(done =~= cell_pairs(*cell));
        }
        true
    }
}

impl GeometryData {
    /// Lays the graph out for `n` vertices, adding vertices with no edges
    /// and no neighbours.
    pub fn extend_to(&mut self, n: usize)
        requires
            old(self).wf(),
            old(self).vertex_count() <= n,
        ensures
            final(self).wf(),
            final(self).vertex_count() == n,
            final(self).edge_map() == old(self).edge_map(),
            final(self).triangles == old(self).triangles,
            forall|a: int, b: usize|
                0 <= a < n ==> (#[trigger] final(self).vertex_connections@[a]@.contains(b) <==> (a
                    < old(self).vertex_count() && old(self).vertex_connections@[a]@.contains(b))),
    {
        let ghost g0 = *self;
        while self.edges.len() < n
            invariant
                self.wf(),
                g0.vertex_count() <= self.vertex_count() <= n,
                self.triangles == g0.triangles,
                forall|a: int| 0 <= a < g0.vertex_count() ==> #[trigger] self.edges@[a] == g0.edges@[a],
                forall|a: int| g0.vertex_count() <= a < self.vertex_count() ==> (#[trigger] self.edges@[a])@.len() == 0,
                forall|a: int| 0 <= a < g0.vertex_count() ==> #[trigger] self.vertex_connections@[a] == g0.vertex_connections@[a],
                forall|a: int| g0.vertex_count() <= a < self.vertex_count() ==> (#[trigger] self.vertex_connections@[a])@.len() == 0,
            decreases n - self.edges@.len(),
        {
            let ghost pre = *self;
            self.edges.push(Vec::new());
            self.vertex_connections.push(Vec::new());
            proof {
                let m = pre.edges@.len() as int;
                assert(self.edges_wf()) by {
                    assert forall|a: int, k: int| 0 <= a < self.edges@.len() && 0 <= k < self.edges@[a]@.len()
                        implies #[trigger] self.edges@[a]@[k].other == pre.edges@[a]@[k].other by {
                        assert(a != m);
                        assert(self.edges@[a] == pre.edges@[a]);
                    }
                }
                assert(self.connections_shaped()) by {
                    assert forall|a: int| 0 <= a < self.vertex_connections@.len() implies (#[trigger] self.vertex_connections@[a])@.no_duplicates() by {
                        if a < m {
                            assert(self.vertex_connections@[a] == pre.vertex_connections@[a]);
                        }
                    }
                    assert forall|a: int, j: int| 0 <= a < self.vertex_connections@.len() && 0 <= j < self.vertex_connections@[a]@.len()
                        implies #[trigger] self.vertex_connections@[a]@[j] < self.vertex_connections@.len() by {
                        assert(a != m);
                        assert(self.vertex_connections@[a] == pre.vertex_connections@[a]);
                    }
                }
                assert(self.connections_symmetric()) by {
                    assert forall|a: int, b: usize| 0 <= a < self.vertex_connections@.len() && #[trigger] self.vertex_connections@[a]@.contains(b)
                        implies self.vertex_connections@[b as int]@.contains(a as usize) by {
                        assert(a != m);
                        assert(self.vertex_connections@[a] == pre.vertex_connections@[a]);
                        assert(pre.vertex_connections@[b as int]@.contains(a as usize));
                        assert(self.vertex_connections@[b as int] == pre.vertex_connections@[b as int]);
                    }
                }
            }
        }
        proof {
            assert forall|e: Edge| #[trigger] self.holds_edge(e) == g0.holds_edge(e) by {
                if self.holds_edge(e) {
                    let k = self.slot_of(e);
                    assert(self.edges@[e.0 as int]@[k].other == e.1);
                    assert((e.0 as int) < g0.vertex_count());
                    assert(g0.edges@[e.0 as int]@[k].other == e.1);
                }
                if g0.holds_edge(e) {
                    let k = g0.slot_of(e);
                    assert(g0.edges@[e.0 as int]@[k].other == e.1);
                    assert(self.edges@[e.0 as int]@[k].other == e.1);
                }
            }
            assert forall|e: Edge| #[trigger] self.holds_edge(e) implies self.record(e) == g0.record(e) by {
                assert(self.edges@[e.0 as int] == g0.edges@[e.0 as int]);
            }
            assert(self.edge_map() =~= g0.edge_map());
            assert forall|a: int, b: usize| 0 <= a < n implies (#[trigger] self.vertex_connections@[a]@.contains(b) <==> (a
                < g0.vertex_count() && g0.vertex_connections@[a]@.contains(b))) by {
                if a >= g0.vertex_count() {
                    assert(self.vertex_connections@[a]@.len() == 0);
                }
            }
        }
    }

    /// Registers the cells of a tetrahedral mesh over `nodes`, in order: every
    /// two vertices of a usable cell are joined, by an edge with its squared
    /// length and in the adjacency. What the graph held stays.
    pub fn register_cells(&mut self, nodes: &Vec<Point3D>, cells: &Vec<Cell>)
        requires
            old(self).wf(),
            old(self).vertex_count() == nodes@.len(),
        ensures
            joined_from(*final(self), *old(self), nodes@, mesh_pairs(cells@, nodes@.len(), cells@.len() as int)),
    {
        let ghost g0 = *self;
        proof {
            assert(nodes@.len() == nodes.len());
            lemma_joined_none(*self, nodes@);
            assert(mesh_pairs(cells@, nodes@.len(), 0) =~= Set::<(usize, usize)>::empty());
        }
        let mut k: usize = 0;
        while k < cells.len()
            invariant
                k <= cells@.len(),
                nodes@.len() <= usize::MAX,
                joined_from(*self, g0, nodes@, mesh_pairs(cells@, nodes@.len(), k as int)),
            decreases cells@.len() - k,
        {
            let ghost before = mesh_pairs(cells@, nodes@.len(), k as int);
            let ghost g1 = *self;
            let used = self.register_cell(nodes, &cells[k]);
            proof {
                let after = mesh_pairs(cells@, nodes@.len(), k as int + 1);
                let q = if used { cell_pairs(cells@[k as int]) } else { Set::<(usize, usize)>::empty() };
                lemma_joined_twice(g0, g1, *self, nodes@, before, q);
                assert forall|p: (usize, usize)| #[trigger] after.contains(p) == (before.contains(p) || (usable(cells@[k as int], nodes@.len()) && cell_pairs(cells@[k as int]).contains(p))) by {
                    if after.contains(p) {
                        let w = choose|w: int| 0 <= w < k + 1 && usable(cells@[w], nodes@.len()) && #[trigger] cell_links_upto(cells@[w], 6, p.0, p.1);
                        if w < k {
                            assert(before.contains(p));
                        }
                    }
                    if before.contains(p) {
                        let w = choose|w: int| 0 <= w < k && usable(cells@[w], nodes@.len()) && #[trigger] cell_links_upto(cells@[w], 6, p.0, p.1);
                        assert(mesh_links(cells@, nodes@.len(), k as int + 1, p.0, p.1));
                    }
                    if usable(cells@[k as int], nodes@.len()) && cell_pairs(cells@[k as int]).contains(p) {
                        assert(cell_links_upto(cells@[k as int], 6, p.0, p.1));
                        assert(mesh_links(cells@, nodes@.len(), k as int + 1, p.0, p.1));
                    }
                }
                assert(after =~= before.union(q));
            }
            k = k + 1;
        }
    }
}

/// Builds the graph of a tetrahedral mesh over `nodes`: every two vertices of
/// a usable cell are joined, by an edge with its squared length and in the
/// adjacency. No triangle records are kept.
pub fn build_mesh_graph(nodes: &Vec<Point3D>, cells: &Vec<Cell>) -> (g: GeometryData)
    ensures
        g.wf(),
        g.vertex_count() == nodes@.len(),
        g.triangles@.len() == 0,
        g.edge_map() == with_pairs(
            Map::<Edge, (u128, Seq<usize>)>::empty(),
            nodes@,
            mesh_pairs(cells@, nodes@.len(), cells@.len() as int),
        ),
        forall|a: int, b: usize|
            0 <= a < nodes@.len() ==> (#[trigger] g.vertex_connections@[a]@.contains(b) <==> linked(
                mesh_pairs(cells@, nodes@.len(), cells@.len() as int),
                a as usize,
                b,
            )),
{
    let mut g = GeometryData::new(nodes.len());
    let ghost g0 = g;
    g.register_cells(nodes, cells);
    proof {
        assert forall|a: int, b: usize| 0 <= a < nodes@.len() implies !(#[trigger] g0.vertex_connections@[a]@.contains(b)) by {
            assert(g0.vertex_connections@[a]@.len() == 0);
        }
    }
    g
}

#[verifier::external_type_specification]
#[verifier::external_body]
pub struct ExDelaunayStructure3D(DelaunayStructure3D);

/// The cells of a tetrahedral mesh, in the mesh's own order.
pub uninterp spec fn mesh_cells(m: DelaunayStructure3D) -> Seq<Cell>;

/// Relies on `DelaunayStructure3D::new`: a structure with no tetrahedra yet.
pub assume_specification[ DelaunayStructure3D::new ]() -> (r: DelaunayStructure3D)
    ensures
        mesh_cells(r).len() == 0,
;

/// Relies on `SimplicialStructure3D::get_nb_tetrahedra`, reached through
/// `DelaunayStructure3D::get_simplicial`: the number of tetrahedra.
#[verifier::external_body]
fn cell_count(m: &DelaunayStructure3D) -> (r: usize)
    ensures
        r == mesh_cells(*m).len(),
{
    m.get_simplicial().get_nb_tetrahedra()
}

/// Relies on `SimplicialStructure3D::get_tetrahedron`, which succeeds exactly
/// below the number of tetrahedra, and `IterTetrahedron::nodes`: the four
/// nodes of tetrahedron `i`, `None` standing for `Node::Infinity`.
#[verifier::external_body]
fn cell_at(m: &DelaunayStructure3D, i: usize) -> (r: Option<Cell>)
    ensures
        i < mesh_cells(*m).len() ==> r == Some(mesh_cells(*m)[i as int]),
        i >= mesh_cells(*m).len() ==> r is None,
{
    match m.get_simplicial().get_tetrahedron(i) {
        Ok(t) => Some(
            t.nodes().map(
                |n| match n {
                    Node::Infinity => None,
                    Node::Value(v) => Some(v),
                },
            ),
        ),
        Err(_) => None,
    }
}

/// The cells of a mesh, read out in order.
pub fn read_cells(m: &DelaunayStructure3D) -> (r: Vec<Cell>)
    ensures
        r@ == mesh_cells(*m),
{
    let count = cell_count(m);
    let mut cells: Vec<Cell> = Vec::new();
    let mut i: usize = 0;
    while i < count
        invariant
            count == mesh_cells(*m).len(),
            i <= count,
            cells@ == mesh_cells(*m).take(i as int),
        decreases count - i,
    {
        if let Some(c) = cell_at(m, i) {
            cells.push(c);
        }
        i = i + 1;
        proof {
            assert(cells@ =~= mesh_cells(*m).take(i as int));
        }
    }
    assert(cells@ =~= mesh_cells(*m));
    cells
}

} // verus!

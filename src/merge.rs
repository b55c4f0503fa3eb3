//! Merging derived graphs built from consecutive ranges of triangles, so
//! that the ranges can be built apart and joined in one pass.
use vstd::prelude::*;

use crate::construct::{
    describes_triangle, edge_in, edge_in_after, edges_after, graph_after, hits, incidence,
    lemma_incidence_empty, range_graph, with_connections,
};
use crate::geometry::{canon, Edge, Point};
use crate::graph::GeometryData;

verus! {

/// The edges of two graphs together: the length from the second where it
/// holds the edge, and the first graph's incidence list followed by the
/// second's.
pub open spec fn merged_edges(
    m1: Map<Edge, (u128, Seq<usize>)>,
    m2: Map<Edge, (u128, Seq<usize>)>,
) -> Map<Edge, (u128, Seq<usize>)> {
    Map::new(
        |e: Edge| m1.dom().contains(e) || m2.dom().contains(e),
        |e: Edge|
            (
                if m2.dom().contains(e) {
                    m2[e].0
                } else {
                    m1[e].0
                },
                (if m1.dom().contains(e) {
                    m1[e].1
                } else {
                    Seq::empty()
                }) + (if m2.dom().contains(e) {
                    m2[e].1
                } else {
                    Seq::empty()
                }),
            ),
    )
}

/// The edges of `g` that lie in buckets before `v`, or in bucket `v` before
/// slot `k`.
pub open spec fn taken_edges(g: GeometryData, v: int, k: int) -> Map<Edge, (u128, Seq<usize>)> {
    Map::new(
        |e: Edge| g.holds_edge(e) && ((e.0 as int) < v || (e.0 as int == v && g.slot_of(e) < k)),
        |e: Edge| g.edge_map()[e],
    )
}

/// `y` is among the first `j` neighbours of `x` in `g` when `x` is `v`, or
/// among all of them when `x` comes before `v`.
pub open spec fn taken_link(g: GeometryData, v: int, j: int, x: int, y: usize) -> bool {
    (x < v && g.vertex_connections@[x]@.contains(y)) || (x == v
        && g.vertex_connections@[x]@.take(j).contains(y))
}

impl GeometryData {
    /// Merges `other` into this graph: the edges of both, each with the
    /// incidence lists of this graph and then of `other`; the adjacency of
    /// both; and `other`'s triangle records after this graph's. Refused, with
    /// nothing changed, when the two are laid out for different numbers of
    /// vertices.
    pub fn merge(&mut self, other: GeometryData) -> (r: bool)
        requires
            old(self).wf(),
            other.wf(),
        ensures
            r == (old(self).vertex_count() == other.vertex_count()),
            !r ==> *final(self) == *old(self),
            r ==> final(self).wf(),
            r ==> final(self).vertex_count() == old(self).vertex_count(),
            r ==> final(self).edge_map() == merged_edges(old(self).edge_map(), other.edge_map()),
            r ==> forall|v: int, x: usize|
                0 <= v < final(self).vertex_count() ==> (#[trigger] final(self).vertex_connections@[v]@.contains(x)
                    <==> (old(self).vertex_connections@[v]@.contains(x)
                    || other.vertex_connections@[v]@.contains(x))),
            r ==> final(self).triangles@ == old(self).triangles@ + other.triangles@,
    {
        let n = self.edges.len();
        if other.edges.len() != n {
            return false;
        }
        let ghost a0 = *self;
        let mut v: usize = 0;
        proof {
            assert(merged_edges(a0.edge_map(), taken_edges(other, 0, 0)) =~= a0.edge_map());
        }
        while v < n
            invariant
                other.wf(),
                self.wf(),
                n == self.edges@.len(),
                n == other.edges@.len(),
                v <= n,
                self.triangles == a0.triangles,
                self.edge_map() == merged_edges(a0.edge_map(), taken_edges(other, v as int, 0)),
                forall|x: int, y: usize|
                    0 <= x < n ==> (#[trigger] self.vertex_connections@[x]@.contains(y) <==> (
                    a0.vertex_connections@[x]@.contains(y) || taken_link(other, v as int, 0, x, y)
                        || taken_link(other, v as int, 0, y as int, x as usize))),
            decreases n - v,
        {
            let bucket = &other.edges[v];
            let ghost links_before = self.vertex_connections;
            let mut k: usize = 0;
            while k < bucket.len()
                invariant
                    other.wf(),
                    self.wf(),
                    n == self.edges@.len(),
                    n == other.edges@.len(),
                    v < n,
                    bucket@ == other.edges@[v as int]@,
                    k <= bucket@.len(),
                    self.triangles == a0.triangles,
                    self.vertex_connections == links_before,
                    self.edge_map() == merged_edges(a0.edge_map(), taken_edges(other, v as int, k as int)),
                decreases bucket@.len() - k,
            {
                let e = Edge(v, bucket[k].other);
                let ghost pre = *self;
                proof {
                    other.lemma_slot(v as int, k as int);
                }
                self.record_edge_list(e, bucket[k].length_sq, &bucket[k].triangles);
                proof {
                    let t0 = taken_edges(other, v as int, k as int);
                    let t1 = taken_edges(other, v as int, k as int + 1);
                    assert(!t0.dom().contains(e));
                    assert forall|f: Edge| #[trigger] t1.dom().contains(f) == (t0.dom().contains(f) || f == e) by {
                        if t1.dom().contains(f) && f.0 == v && other.slot_of(f) == k {
                            assert(other.edges@[v as int]@[k as int].other == f.1);
                        }
                    }
                    let want = merged_edges(a0.edge_map(), t1);
                    let got = merged_edges(a0.edge_map(), t0).insert(
                        e,
                        (bucket@[k as int].length_sq, pre.edge_triangles(e) + bucket@[k as int].triangles@),
                    );
                    assert(pre.edge_map() == merged_edges(a0.edge_map(), t0));
                    if pre.holds_edge(e) {
                        assert(pre.edge_map().dom().contains(e));
                        assert(pre.edge_triangles(e) == pre.edge_map()[e].1);
                    } else {
                        assert(!pre.edge_map().dom().contains(e));
                        assert(!a0.edge_map().dom().contains(e));
                    }
                    assert(want.dom() =~= got.dom());
                    assert forall|f: Edge| want.dom().contains(f) implies #[trigger] want[f] == got[f] by {
                        if f == e {
                            assert(other.edge_map()[e] == (bucket@[k as int].length_sq, bucket@[k as int].triangles@));
                            if a0.edge_map().dom().contains(e) {
                                assert(pre.edge_triangles(e) == a0.edge_map()[e].1);
                            } else {
                                assert(pre.edge_triangles(e) =~= Seq::<usize>::empty());
                            }
                        }
                    }
                    assert(want =~= got);
                }
                k = k + 1;
            }
            proof {
                let t0 = taken_edges(other, v as int, bucket@.len() as int);
                let t1 = taken_edges(other, v as int + 1, 0);
                assert forall|f: Edge| #[trigger] t1.dom().contains(f) == t0.dom().contains(f) by {
                    if t1.dom().contains(f) && f.0 == v {
                        let s = other.slot_of(f);
                        assert(0 <= s < other.edges@[v as int]@.len() && other.edges@[v as int]@[s].other == f.1);
                    }
                }
                assert(t1 =~= t0);
            }
            let nb = &other.vertex_connections[v];
            let mut j: usize = 0;
            while j < nb.len()
                invariant
                    other.wf(),
                    self.wf(),
                    n == self.edges@.len(),
                    n == other.edges@.len(),
                    v < n,
                    nb@ == other.vertex_connections@[v as int]@,
                    j <= nb@.len(),
                    self.triangles == a0.triangles,
                    self.edge_map() == merged_edges(a0.edge_map(), taken_edges(other, v as int + 1, 0)),
                    forall|x: int, y: usize|
                        0 <= x < n ==> (#[trigger] self.vertex_connections@[x]@.contains(y) <==> (
                        a0.vertex_connections@[x]@.contains(y) || taken_link(other, v as int, j as int, x, y)
                            || taken_link(other, v as int, j as int, y as int, x as usize))),
                decreases nb@.len() - j,
            {
                let y = nb[j];
                let ghost pre = *self;
                proof {
                    assert(nb@.contains(y));
                }
                self.connect(v, y);
                proof {
                    assert(pre.edges == self.edges);
                    assert(self.edge_map() =~= pre.edge_map());
                    assert(nb@.take(j as int + 1) == nb@.take(j as int).push(y));
                    assert forall|x: int, z: usize| 0 <= x < n implies (#[trigger] self.vertex_connections@[x]@.contains(z)
                        <==> (a0.vertex_connections@[x]@.contains(z) || taken_link(other, v as int, j as int + 1, x, z)
                        || taken_link(other, v as int, j as int + 1, z as int, x as usize))) by {
                        assert forall|p: int, q: usize| #[trigger] taken_link(other, v as int, j as int + 1, p, q) == (
                            taken_link(other, v as int, j as int, p, q) || (p == v && q == y)) by {
                            if p == v {
                                let s0 = nb@.take(j as int);
                                if s0.push(y).contains(q) && q != y {
                                    let i = choose|i: int| 0 <= i < s0.push(y).len() && s0.push(y)[i] == q;
                                    assert(s0[i] == q);
                                }
                                if s0.contains(q) {
                                    let i = choose|i: int| 0 <= i < s0.len() && s0[i] == q;
                                    assert(s0.push(y)[i] == q);
                                }
                                if q == y {
                                    assert(s0.push(y)[j as int] == y);
                                }
                            }
                        }
                        assert(self.vertex_connections@[x]@.contains(z) <==> (pre.vertex_connections@[x]@.contains(z)
                            || (x == v && z == y) || (x == y && z == v)));
                    }
                }
                j = j + 1;
            }
            proof {
                assert(nb@.take(nb@.len() as int) =~= nb@);
                assert forall|p: int, q: usize| 0 <= p < n implies #[trigger] taken_link(other, v as int + 1, 0, p, q) == taken_link(
                    other,
                    v as int,
                    nb@.len() as int,
                    p,
                    q,
                ) by {}
                assert forall|x: int, y: usize|
                    0 <= x < n implies (#[trigger] self.vertex_connections@[x]@.contains(y) <==> (
                    a0.vertex_connections@[x]@.contains(y) || taken_link(other, v as int + 1, 0, x, y)
                        || taken_link(other, v as int + 1, 0, y as int, x as usize))) by {
                    if (y as int) < n {
                        assert(taken_link(other, v as int + 1, 0, y as int, x as usize) == taken_link(
                            other,
                            v as int,
                            nb@.len() as int,
                            y as int,
                            x as usize,
                        ));
                    }
                }
            }
            v = v + 1;
        }
        let mut rest = other.triangles;
        self.triangles.append(&mut rest);
        proof {
            assert(taken_edges(other, n as int, 0) =~= other.edge_map()) by {
                assert forall|f: Edge| #[trigger] other.holds_edge(f) implies (f.0 as int) < n by {}
            }
            assert forall|x: int, y: usize|
                0 <= x < n implies (#[trigger] self.vertex_connections@[x]@.contains(y) <==> (
                a0.vertex_connections@[x]@.contains(y) || other.vertex_connections@[x]@.contains(y))) by {
                if taken_link(other, n as int, 0, y as int, x as usize) {
                    assert(other.vertex_connections@[y as int]@.contains(x as usize));
                }
            }
        }
        true
    }
}

proof fn lemma_incidence_split(tris: Seq<usize>, lo: int, mid: int, hi: int, e: Edge)
    requires
        lo <= mid <= hi,
    ensures
        incidence(tris, lo, hi, e) == incidence(tris, lo, mid, e) + incidence(tris, mid, hi, e),
    decreases hi - mid,
{
    if hi > mid {
        lemma_incidence_split(tris, lo, mid, hi - 1, e);
        assert(incidence(tris, lo, hi, e) =~= incidence(tris, lo, mid, e) + incidence(tris, mid, hi, e));
    } else {
        assert(incidence(tris, mid, hi, e) =~= Seq::<usize>::empty());
        assert(incidence(tris, lo, hi, e) =~= incidence(tris, lo, mid, e) + incidence(tris, mid, hi, e));
    }
}

proof fn lemma_edge_in_split(tris: Seq<usize>, lo: int, mid: int, hi: int, e: Edge)
    requires
        lo <= mid <= hi,
    ensures
        edge_in(tris, lo, hi, e) == (edge_in(tris, lo, mid, e) || edge_in(tris, mid, hi, e)),
{
    if edge_in(tris, lo, hi, e) {
        let (t, k) = choose|t: int, k: int| lo <= t < hi && 0 <= k < 3 && #[trigger] crate::construct::tri_edge(tris, t, k) == e;
        if t < mid {
            assert(edge_in(tris, lo, mid, e));
        } else {
            assert(edge_in(tris, mid, hi, e));
        }
    }
    if edge_in(tris, lo, mid, e) {
        let (t, k) = choose|t: int, k: int| lo <= t < mid && 0 <= k < 3 && #[trigger] crate::construct::tri_edge(tris, t, k) == e;
        assert(edge_in(tris, lo, hi, e));
    }
    if edge_in(tris, mid, hi, e) {
        let (t, k) = choose|t: int, k: int| mid <= t < hi && 0 <= k < 3 && #[trigger] crate::construct::tri_edge(tris, t, k) == e;
        assert(edge_in(tris, lo, hi, e));
    }
}

/// Law: the graphs of two consecutive ranges of triangles merge into the
/// graph of the whole range, so a triangulation can be built in parts, apart
/// from each other, and joined.
pub proof fn lemma_merge_ranges(
    a: GeometryData,
    b: GeometryData,
    c: GeometryData,
    points: Seq<Point>,
    tris: Seq<usize>,
    types: usize,
    lo: int,
    mid: int,
    hi: int,
)
    requires
        lo <= mid <= hi,
        range_graph(a, points, tris, types, lo, mid),
        range_graph(b, points, tris, types, mid, hi),
        c.wf(),
        c.vertex_count() == a.vertex_count(),
        c.edge_map() == merged_edges(a.edge_map(), b.edge_map()),
        forall|v: int, x: usize|
            0 <= v < c.vertex_count() ==> (#[trigger] c.vertex_connections@[v]@.contains(x) <==> (
            a.vertex_connections@[v]@.contains(x) || b.vertex_connections@[v]@.contains(x))),
        c.triangles@ == a.triangles@ + b.triangles@,
    ensures
        range_graph(c, points, tris, types, lo, hi),
{
    assert forall|e: Edge| #[trigger] edge_in_after(tris, lo, hi, 0, e) == (edge_in_after(tris, lo, mid, 0, e)
        || edge_in_after(tris, mid, hi, 0, e)) by {
        lemma_edge_in_split(tris, lo, mid, hi, e);
    }
    let ma = edges_after(points, tris, lo, mid, 0);
    let mb = edges_after(points, tris, mid, hi, 0);
    let want = edges_after(points, tris, lo, hi, 0);
    let got = merged_edges(ma, mb);
    assert(got.dom() =~= want.dom());
    assert forall|e: Edge| want.dom().contains(e) implies #[trigger] want[e] == got[e] by {
        lemma_incidence_split(tris, lo, mid, hi, e);
        lemma_edge_in_split(tris, lo, mid, hi, e);
        assert(hits(tris, hi, e, 0) =~= Seq::<usize>::empty());
        assert(hits(tris, mid, e, 0) =~= Seq::<usize>::empty());
        if !edge_in(tris, lo, mid, e) {
            lemma_incidence_empty(tris, lo, mid, e);
        }
        if !edge_in(tris, mid, hi, e) {
            lemma_incidence_empty(tris, mid, hi, e);
        }
        assert(want[e].1 =~= got[e].1);
    }
    assert(want =~= got);
    assert forall|x: int, y: usize| 0 <= x < points.len() implies (#[trigger] c.vertex_connections@[x]@.contains(y) <==> (
        with_connections(types) && edge_in_after(tris, lo, hi, 0, canon(x as usize, y)))) by {
        assert(a.vertex_connections@[x]@.contains(y) <==> (with_connections(types) && edge_in_after(tris, lo, mid, 0, canon(x as usize, y))));
        assert(b.vertex_connections@[x]@.contains(y) <==> (with_connections(types) && edge_in_after(tris, mid, hi, 0, canon(x as usize, y))));
    }
    assert(graph_after(c, points, tris, types, lo, hi, 0));
    assert forall|i: int| 0 <= i < hi - lo implies describes_triangle(#[trigger] c.triangles@[i], points, tris, lo + i, types) by {
        if i < mid - lo {
            assert(c.triangles@[i] == a.triangles@[i]);
        } else {
            assert(c.triangles@[i] == b.triangles@[i - (mid - lo)]);
            assert(describes_triangle(b.triangles@[i - (mid - lo)], points, tris, mid + (i - (mid - lo)), types));
        }
    }
}

} // verus!

//! The derived graph of a triangulation: its edges with their squared lengths
//! and incident triangles, the triangle records, and vertex adjacency.
use vstd::prelude::*;

use crate::geometry::{canon, Edge, TriangleData};

verus! {

/// One edge of the graph, stored in the bucket of its smaller endpoint.
#[derive(Debug)]
pub struct EdgeRecord {
    /// The larger endpoint.
    pub other: usize,
    /// The squared length of the edge.
    pub length_sq: u128,
    /// The triangles incident to the edge, in the order they were added.
    pub triangles: Vec<usize>,
}

/// The graph derived from a triangulation.
///
/// `edges[a]` holds the edges `(a, b)` with `a <= b`, one record per edge;
/// `vertex_connections[a]` the vertices joined to `a`, each once.
#[derive(Debug)]
pub struct GeometryData {
    pub triangles: Vec<TriangleData>,
    pub edges: Vec<Vec<EdgeRecord>>,
    pub vertex_connections: Vec<Vec<usize>>,
}

/// `s` with `t` appended, if given.
pub open spec fn with_triangle(s: Seq<usize>, t: Option<usize>) -> Seq<usize> {
    match t {
        Some(t) => s.push(t),
        None => s,
    }
}

/// Whether the edge table `edges` holds `e`.
pub open spec fn table_holds(edges: Seq<Vec<EdgeRecord>>, e: Edge) -> bool {
    &&& e.0 < edges.len()
    &&& exists|k: int| 0 <= k < edges[e.0 as int]@.len() && #[trigger] edges[e.0 as int]@[k].other == e.1
}

/// Where the record of `e` stands in its bucket of `edges`.
pub open spec fn table_slot(edges: Seq<Vec<EdgeRecord>>, e: Edge) -> int {
    choose|k: int| 0 <= k < edges[e.0 as int]@.len() && #[trigger] edges[e.0 as int]@[k].other == e.1
}

/// The edge table `edges` as a map from each edge to its squared length and
/// incident triangles.
pub open spec fn table_map(edges: Seq<Vec<EdgeRecord>>) -> Map<Edge, (u128, Seq<usize>)> {
    Map::new(
        |e: Edge| table_holds(edges, e),
        |e: Edge|
            (
                edges[e.0 as int]@[table_slot(edges, e)].length_sq,
                edges[e.0 as int]@[table_slot(edges, e)].triangles@,
            ),
    )
}

impl GeometryData {
    /// The number of vertices the graph is laid out for.
    pub open spec fn vertex_count(self) -> nat {
        self.edges@.len()
    }

    /// Whether the edge `e` is in the graph.
    pub open spec fn holds_edge(self, e: Edge) -> bool {
        table_holds(self.edges@, e)
    }

    /// Where the record of a held edge stands in its bucket.
    pub open spec fn slot_of(self, e: Edge) -> int {
        table_slot(self.edges@, e)
    }

    /// The record of a held edge.
    pub open spec fn record(self, e: Edge) -> EdgeRecord {
        self.edges@[e.0 as int]@[self.slot_of(e)]
    }

    /// The edges, each with its squared length and its incident triangles.
    pub open spec fn edge_map(self) -> Map<Edge, (u128, Seq<usize>)> {
        table_map(self.edges@)
    }

    /// The squared length of `e`, if the graph holds it.
    pub open spec fn edge_length(self, e: Edge) -> Option<u128> {
        if self.holds_edge(e) {
            Some(self.record(e).length_sq)
        } else {
            None
        }
    }

    /// The triangles incident to `e`; none where the graph does not hold it.
    pub open spec fn edge_triangles(self, e: Edge) -> Seq<usize> {
        if self.holds_edge(e) {
            self.record(e).triangles@
        } else {
            Seq::empty()
        }
    }

    /// The vertices joined to `v`.
    pub open spec fn neighbors(self, v: int) -> Set<usize> {
        self.vertex_connections@[v]@.to_set()
    }

    /// Every bucket holds edges to larger vertices, each at most once.
    pub open spec fn edges_wf(self) -> bool {
        &&& forall|a: int, k: int|
            0 <= a < self.edges@.len() && 0 <= k < self.edges@[a]@.len() ==> a <= #[trigger] self.edges@[a]@[k].other < self.edges@.len()
        &&& forall|a: int, k1: int, k2: int|
            0 <= a < self.edges@.len() && 0 <= k1 < self.edges@[a]@.len() && 0 <= k2
                < self.edges@[a]@.len() && #[trigger] self.edges@[a]@[k1].other == #[trigger] self.edges@[a]@[k2].other ==> k1 == k2
    }

    /// Every adjacency list names vertices of the graph, each at most once.
    pub open spec fn connections_shaped(self) -> bool {
        &&& self.vertex_connections@.len() == self.edges@.len()
        &&& forall|a: int|
            0 <= a < self.vertex_connections@.len() ==> (#[trigger] self.vertex_connections@[a])@.no_duplicates()
        &&& forall|a: int, j: int|
            0 <= a < self.vertex_connections@.len() && 0 <= j < self.vertex_connections@[a]@.len()
                ==> #[trigger] self.vertex_connections@[a]@[j] < self.vertex_connections@.len()
    }

    /// Adjacency is symmetric: `b` is joined to `a` exactly when `a` is joined to `b`.
    pub open spec fn connections_symmetric(self) -> bool {
        forall|a: int, b: usize|
            0 <= a < self.vertex_connections@.len() && #[trigger] self.vertex_connections@[a]@.contains(b)
                ==> self.vertex_connections@[b as int]@.contains(a as usize)
    }

    /// The invariant of the graph.
    pub open spec fn wf(self) -> bool {
        &&& self.edges_wf()
        &&& self.connections_shaped()
        &&& self.connections_symmetric()
    }

    pub proof fn lemma_slot(self, a: int, k: int)
        requires
            self.edges_wf(),
            0 <= a < self.edges@.len(),
            0 <= k < self.edges@[a]@.len(),
        ensures
            self.holds_edge(Edge(a as usize, self.edges@[a]@[k].other)),
            self.slot_of(Edge(a as usize, self.edges@[a]@[k].other)) == k,
            self.record(Edge(a as usize, self.edges@[a]@[k].other)) == self.edges@[a]@[k],
    {
        let e = Edge(a as usize, self.edges@[a]@[k].other);
        assert(self.edges@[e.0 as int]@[k].other == e.1);
        let s = self.slot_of(e);
        assert(self.edges@[a]@[s].other == self.edges@[a]@[k].other);
    }

    /// A graph over `n` vertices with no edges and no triangles.
    pub fn new(n: usize) -> (r: GeometryData)
        ensures
            r.wf(),
            r.vertex_count() == n,
            r.triangles@.len() == 0,
            r.edge_map() == Map::<Edge, (u128, Seq<usize>)>::empty(),
            forall|v: int| 0 <= v < n ==> (#[trigger] r.vertex_connections@[v])@.len() == 0,
    {
        let mut edges: Vec<Vec<EdgeRecord>> = Vec::new();
        let mut vertex_connections: Vec<Vec<usize>> = Vec::new();
        let mut i: usize = 0;
        while i < n
            invariant
                i <= n,
                edges@.len() == i,
                vertex_connections@.len() == i,
                forall|v: int| 0 <= v < i ==> (#[trigger] edges@[v])@.len() == 0,
                forall|v: int| 0 <= v < i ==> (#[trigger] vertex_connections@[v])@.len() == 0,
            decreases n - i,
        {
            edges.push(Vec::new());
            vertex_connections.push(Vec::new());
            i = i + 1;
        }
        let r = GeometryData { triangles: Vec::new(), edges, vertex_connections };
        assert(r.edge_map() =~= Map::<Edge, (u128, Seq<usize>)>::empty());
        r
    }

    /// Where the record of `e` stands in its bucket, if the graph holds it.
    pub fn find_slot(&self, e: Edge) -> (r: Option<usize>)
        requires
            self.edges_wf(),
        ensures
            r is Some <==> self.holds_edge(e),
            r matches Some(k) ==> k == self.slot_of(e) && self.edges@[e.0 as int]@[k as int].other == e.1,
    {
        if e.0 >= self.edges.len() {
            return None;
        }
        let bucket = &self.edges[e.0];
        let mut k: usize = 0;
        while k < bucket.len()
            invariant
                self.edges_wf(),
                e.0 < self.edges@.len(),
                bucket@ == self.edges@[e.0 as int]@,
                k <= bucket@.len(),
                forall|j: int| 0 <= j < k ==> #[trigger] self.edges@[e.0 as int]@[j].other != e.1,
            decreases bucket@.len() - k,
        {
            if bucket[k].other == e.1 {
                proof {
                    self.lemma_slot(e.0 as int, k as int);
                }
                return Some(k);
            }
            k = k + 1;
        }
        None
    }

    /// The squared length of the edge joining `a` and `b`, if the graph holds it.
    pub fn get_edge_length(&self, a: usize, b: usize) -> (r: Option<u128>)
        requires
            self.edges_wf(),
        ensures
            r == self.edge_length(canon(a, b)),
    {
        let e = Edge::new(a, b);
        match self.find_slot(e) {
            Some(k) => Some(self.edges[e.0][k].length_sq),
            None => None,
        }
    }

    /// The triangles incident to the edge joining `a` and `b`.
    pub fn get_edge_triangles(&self, a: usize, b: usize) -> (r: Vec<usize>)
        requires
            self.edges_wf(),
        ensures
            r@ == self.edge_triangles(canon(a, b)),
    {
        let e = Edge::new(a, b);
        match self.find_slot(e) {
            Some(k) => self.edges[e.0][k].triangles.clone(),
            None => Vec::new(),
        }
    }
    /// The squared length of `e`, if the graph holds it.
    pub fn length_of(&self, e: Edge) -> (r: Option<u128>)
        requires
            self.edges_wf(),
        ensures
            r == self.edge_length(e),
    {
        match self.find_slot(e) {
            Some(k) => Some(self.edges[e.0][k].length_sq),
            None => None,
        }
    }

    /// The triangles incident to `e`.
    pub fn triangles_of(&self, e: Edge) -> (r: Vec<usize>)
        requires
            self.edges_wf(),
        ensures
            r@ == self.edge_triangles(e),
    {
        match self.find_slot(e) {
            Some(k) => self.edges[e.0][k].triangles.clone(),
            None => Vec::new(),
        }
    }

    /// Sets the squared length of the edge `e` and adds triangle `t`, if
    /// given, to its incidence list; the edge is created where the graph does
    /// not hold it yet.
    pub fn record_edge(&mut self, e: Edge, length_sq: u128, t: Option<usize>)
        requires
            old(self).edges_wf(),
            e.0 <= e.1 < old(self).edges@.len(),
        ensures
            final(self).edges_wf(),
            final(self).edges@.len() == old(self).edges@.len(),
            final(self).vertex_connections == old(self).vertex_connections,
            final(self).triangles == old(self).triangles,
            final(self).edge_map() == old(self).edge_map().insert(
                e,
                (length_sq, with_triangle(old(self).edge_triangles(e), t)),
            ),
    {
        let ghost pre = *self;
        match self.find_slot(e) {
            Some(k) => {
                self.edges[e.0][k].length_sq = length_sq;
                if let Some(t) = t {
                    self.edges[e.0][k].triangles.push(t);
                }
                proof {
                    assert(self.edges_wf()) by {
                        assert(self.edges@.len() == pre.edges@.len());
                        assert forall|a: int| 0 <= a < self.edges@.len() implies (#[trigger] self.edges@[a])@.len()
                            == pre.edges@[a]@.len() by {}
                        assert forall|a: int, k1: int| 0 <= a < self.edges@.len() && 0 <= k1 < self.edges@[a]@.len()
                            implies #[trigger] self.edges@[a]@[k1].other == pre.edges@[a]@[k1].other by {}
                    }
                    self.lemma_slot(e.0 as int, k as int);
                    pre.lemma_slot(e.0 as int, k as int);
                    assert(self.record(e).triangles@ == with_triangle(pre.edge_triangles(e), t));
                    assert forall|f: Edge| #[trigger] self.holds_edge(f) == pre.holds_edge(f) by {
                        if pre.holds_edge(f) {
                            let j = pre.slot_of(f);
                            assert(self.edges@[f.0 as int]@[j].other == f.1);
                        }
                        if self.holds_edge(f) {
                            let j = self.slot_of(f);
                            assert(pre.edges@[f.0 as int]@[j].other == f.1);
                        }
                    }
                    assert forall|f: Edge| #[trigger] self.holds_edge(f) && f != e implies self.record(f)
                        == pre.record(f) by {
                        let j = self.slot_of(f);
                        assert(pre.edges@[f.0 as int]@[j].other == f.1);
                        pre.lemma_slot(f.0 as int, j);
                    }
                    let m1 = self.edge_map();
                    let m2 = pre.edge_map().insert(e, (length_sq, with_triangle(pre.edge_triangles(e), t)));
                    assert forall|f: Edge| #[trigger] m1.dom().contains(f) == m2.dom().contains(f) by {
                        assert(self.holds_edge(f) == pre.holds_edge(f));
                    }
                    assert(m1.dom() =~= m2.dom());
                    assert forall|f: Edge| m1.dom().contains(f) implies #[trigger] m1[f] == m2[f] by {
                        if f != e {
                            assert(self.record(f) == pre.record(f));
                        }
                    }
                    assert(m1 =~= m2);
                }
            },
            None => {
                let mut triangles: Vec<usize> = Vec::new();
                if let Some(t) = t {
                    triangles.push(t);
                }
                self.edges[e.0].push(EdgeRecord { other: e.1, length_sq, triangles });
                proof {
                    let n = pre.edges@[e.0 as int]@.len() as int;
                    assert(self.edges@[e.0 as int]@[n].other == e.1);
                    assert(self.edges_wf()) by {
                        assert(self.edges@.len() == pre.edges@.len());
                        assert forall|a: int| 0 <= a < self.edges@.len() && a != e.0 implies (#[trigger] self.edges@[a])@.len()
                            == pre.edges@[a]@.len() by {}
                        assert forall|a: int, k1: int| 0 <= a < self.edges@.len() && 0 <= k1 < self.edges@[a]@.len()
                            && !(a == e.0 && k1 == n) implies #[trigger] self.edges@[a]@[k1].other == pre.edges@[a]@[k1].other by {}
                        assert forall|k1: int| 0 <= k1 < n implies #[trigger] self.edges@[e.0 as int]@[k1].other != e.1 by {
                            assert(pre.edges@[e.0 as int]@[k1].other != e.1);
                        }
                    }
                    self.lemma_slot(e.0 as int, n);
                    assert forall|f: Edge| #[trigger] self.holds_edge(f) == (pre.holds_edge(f) || f == e) by {
                        if pre.holds_edge(f) {
                            let j = pre.slot_of(f);
                            assert(self.edges@[f.0 as int]@[j].other == f.1);
                        }
                        if self.holds_edge(f) && f != e {
                            let j = self.slot_of(f);
                            assert(pre.edges@[f.0 as int]@[j].other == f.1);
                        }
                    }
                    assert forall|f: Edge| #[trigger] self.holds_edge(f) && f != e implies self.record(f)
                        == pre.record(f) by {
                        let j = self.slot_of(f);
                        assert(j != n || f.0 != e.0);
                        assert(pre.edges@[f.0 as int]@[j].other == f.1);
                        pre.lemma_slot(f.0 as int, j);
                    }
                    assert(pre.edge_triangles(e) =~= Seq::<usize>::empty());
                    assert(self.edge_triangles(e) =~= with_triangle(pre.edge_triangles(e), t));
                    assert(self.record(e).triangles@ == with_triangle(pre.edge_triangles(e), t));
                    let m1 = self.edge_map();
                    let m2 = pre.edge_map().insert(e, (length_sq, with_triangle(pre.edge_triangles(e), t)));
                    assert forall|f: Edge| #[trigger] m1.dom().contains(f) == m2.dom().contains(f) by {
                        assert(self.holds_edge(f) == (pre.holds_edge(f) || f == e));
                    }
                    assert(m1.dom() =~= m2.dom());
                    assert forall|f: Edge| m1.dom().contains(f) implies #[trigger] m1[f] == m2[f] by {
                        if f != e {
                            assert(self.record(f) == pre.record(f));
                        }
                    }
                    assert(m1 =~= m2);
                }
            },
        }
    }

    /// Sets the squared length of the edge `e` and appends `more` to its
    /// incidence list; the edge is created where the graph does not hold it
    /// yet.
    pub fn record_edge_list(&mut self, e: Edge, length_sq: u128, more: &Vec<usize>)
        requires
            old(self).edges_wf(),
            e.0 <= e.1 < old(self).edges@.len(),
        ensures
            final(self).edges_wf(),
            final(self).edges@.len() == old(self).edges@.len(),
            final(self).vertex_connections == old(self).vertex_connections,
            final(self).triangles == old(self).triangles,
            final(self).edge_map() == old(self).edge_map().insert(
                e,
                (length_sq, old(self).edge_triangles(e) + more@),
            ),
    {
        let ghost pre = *self;
        match self.find_slot(e) {
            Some(k) => {
                self.edges[e.0][k].length_sq = length_sq;
                let mut extra = more.clone();
                self.edges[e.0][k].triangles.append(&mut extra);
                proof {
                    assert(self.edges_wf()) by {
                        assert(self.edges@.len() == pre.edges@.len());
                        assert forall|a: int| 0 <= a < self.edges@.len() implies (#[trigger] self.edges@[a])@.len()
                            == pre.edges@[a]@.len() by {}
                        assert forall|a: int, k1: int| 0 <= a < self.edges@.len() && 0 <= k1 < self.edges@[a]@.len()
                            implies #[trigger] self.edges@[a]@[k1].other == pre.edges@[a]@[k1].other by {}
                    }
                    self.lemma_slot(e.0 as int, k as int);
                    pre.lemma_slot(e.0 as int, k as int);
                    assert(self.record(e).triangles@ == pre.edge_triangles(e) + more@);
                    assert forall|f: Edge| #[trigger] self.holds_edge(f) == pre.holds_edge(f) by {
                        if pre.holds_edge(f) {
                            let j = pre.slot_of(f);
                            assert(self.edges@[f.0 as int]@[j].other == f.1);
                        }
                        if self.holds_edge(f) {
                            let j = self.slot_of(f);
                            assert(pre.edges@[f.0 as int]@[j].other == f.1);
                        }
                    }
                    assert forall|f: Edge| #[trigger] self.holds_edge(f) && f != e implies self.record(f)
                        == pre.record(f) by {
                        let j = self.slot_of(f);
                        assert(pre.edges@[f.0 as int]@[j].other == f.1);
                        pre.lemma_slot(f.0 as int, j);
                    }
                    let m1 = self.edge_map();
                    let m2 = pre.edge_map().insert(e, (length_sq, pre.edge_triangles(e) + more@));
                    assert forall|f: Edge| #[trigger] m1.dom().contains(f) == m2.dom().contains(f) by {
                        assert(self.holds_edge(f) == pre.holds_edge(f));
                    }
                    assert(m1.dom() =~= m2.dom());
                    assert forall|f: Edge| m1.dom().contains(f) implies #[trigger] m1[f] == m2[f] by {
                        if f != e {
                            assert(self.record(f) == pre.record(f));
                        }
                    }
                    assert(m1 =~= m2);
                }
            },
            None => {
                let triangles = more.clone();
                self.edges[e.0].push(EdgeRecord { other: e.1, length_sq, triangles });
                proof {
                    let n = pre.edges@[e.0 as int]@.len() as int;
                    assert(self.edges@[e.0 as int]@[n].other == e.1);
                    assert(self.edges_wf()) by {
                        assert(self.edges@.len() == pre.edges@.len());
                        assert forall|a: int| 0 <= a < self.edges@.len() && a != e.0 implies (#[trigger] self.edges@[a])@.len()
                            == pre.edges@[a]@.len() by {}
                        assert forall|a: int, k1: int| 0 <= a < self.edges@.len() && 0 <= k1 < self.edges@[a]@.len()
                            && !(a == e.0 && k1 == n) implies #[trigger] self.edges@[a]@[k1].other == pre.edges@[a]@[k1].other by {}
                        assert forall|k1: int| 0 <= k1 < n implies #[trigger] self.edges@[e.0 as int]@[k1].other != e.1 by {
                            assert(pre.edges@[e.0 as int]@[k1].other != e.1);
                        }
                    }
                    self.lemma_slot(e.0 as int, n);
                    assert forall|f: Edge| #[trigger] self.holds_edge(f) == (pre.holds_edge(f) || f == e) by {
                        if pre.holds_edge(f) {
                            let j = pre.slot_of(f);
                            assert(self.edges@[f.0 as int]@[j].other == f.1);
                        }
                        if self.holds_edge(f) && f != e {
                            let j = self.slot_of(f);
                            assert(pre.edges@[f.0 as int]@[j].other == f.1);
                        }
                    }
                    assert forall|f: Edge| #[trigger] self.holds_edge(f) && f != e implies self.record(f)
                        == pre.record(f) by {
                        let j = self.slot_of(f);
                        assert(j != n || f.0 != e.0);
                        assert(pre.edges@[f.0 as int]@[j].other == f.1);
                        pre.lemma_slot(f.0 as int, j);
                    }
                    assert(pre.edge_triangles(e) =~= Seq::<usize>::empty());
                    assert(self.edge_triangles(e) =~= pre.edge_triangles(e) + more@);
                    assert(self.record(e).triangles@ == pre.edge_triangles(e) + more@);
                    let m1 = self.edge_map();
                    let m2 = pre.edge_map().insert(e, (length_sq, pre.edge_triangles(e) + more@));
                    assert forall|f: Edge| #[trigger] m1.dom().contains(f) == m2.dom().contains(f) by {
                        assert(self.holds_edge(f) == (pre.holds_edge(f) || f == e));
                    }
                    assert(m1.dom() =~= m2.dom());
                    assert forall|f: Edge| m1.dom().contains(f) implies #[trigger] m1[f] == m2[f] by {
                        if f != e {
                            assert(self.record(f) == pre.record(f));
                        }
                    }
                    assert(m1 =~= m2);
                }
            },
        }
    }

    /// Puts `b` into the adjacency list of `a`, unless it is there already.
    fn insert_neighbor(&mut self, a: usize, b: usize)
        requires
            old(self).connections_shaped(),
            a < old(self).vertex_connections@.len(),
            b < old(self).vertex_connections@.len(),
        ensures
            final(self).connections_shaped(),
            final(self).edges == old(self).edges,
            final(self).triangles == old(self).triangles,
            final(self).vertex_connections@.len() == old(self).vertex_connections@.len(),
            forall|v: int|
                0 <= v < final(self).vertex_connections@.len() && v != a ==> #[trigger] final(self).vertex_connections@[v] == old(self).vertex_connections@[v],
            forall|x: usize|
                #[trigger] final(self).vertex_connections@[a as int]@.contains(x) <==> (old(self).vertex_connections@[a as int]@.contains(x) || x == b),
    {
        let ghost pre = *self;
        if !contains_index(&self.vertex_connections[a], b) {
            self.vertex_connections[a].push(b);
            proof {
                let s = pre.vertex_connections@[a as int]@;
                assert(self.vertex_connections@[a as int]@ == s.push(b));
                assert forall|x: usize| #[trigger] s.push(b).contains(x) <==> (s.contains(x) || x == b) by {
                    if s.push(b).contains(x) && x != b {
                        let j = choose|j: int| 0 <= j < s.push(b).len() && s.push(b)[j] == x;
                        assert(s[j] == x);
                    }
                    if x == b {
                        assert(s.push(b)[s.len() as int] == b);
                    }
                    if s.contains(x) {
                        let j = choose|j: int| 0 <= j < s.len() && s[j] == x;
                        assert(s.push(b)[j] == x);
                    }
                }
                assert(self.vertex_connections@[a as int]@.no_duplicates()) by {
                    let t = s.push(b);
                    assert forall|i: int, j: int| 0 <= i < t.len() && 0 <= j < t.len() && i != j implies t[i]
                        != t[j] by {
                        if i == s.len() as int {
                            assert(t[j] == s[j] && s.contains(s[j]));
                        } else if j == s.len() as int {
                            assert(t[i] == s[i] && s.contains(s[i]));
                        }
                    }
                }
            }
        }
    }

    /// Joins `a` and `b` in both adjacency lists.
    pub fn connect(&mut self, a: usize, b: usize)
        requires
            old(self).connections_shaped(),
            old(self).connections_symmetric(),
            a < old(self).vertex_connections@.len(),
            b < old(self).vertex_connections@.len(),
        ensures
            final(self).connections_shaped(),
            final(self).connections_symmetric(),
            final(self).edges == old(self).edges,
            final(self).triangles == old(self).triangles,
            final(self).vertex_connections@.len() == old(self).vertex_connections@.len(),
            forall|v: int, x: usize|
                0 <= v < final(self).vertex_connections@.len() ==> (#[trigger] final(self).vertex_connections@[v]@.contains(x) <==> (old(self).vertex_connections@[v]@.contains(x)
                    || (v == a && x == b) || (v == b && x == a))),
    {
        let ghost pre = *self;
        self.insert_neighbor(a, b);
        let ghost mid = *self;
        self.insert_neighbor(b, a);
        proof {
            assert forall|v: int, x: usize|
                0 <= v < self.vertex_connections@.len() implies (#[trigger] self.vertex_connections@[v]@.contains(x)
                <==> (pre.vertex_connections@[v]@.contains(x) || (v == a && x == b) || (v == b && x
                == a))) by {
                if v == b {
                    assert(self.vertex_connections@[v]@.contains(x) <==> (mid.vertex_connections@[v]@.contains(x) || x == a));
                } else {
                    assert(self.vertex_connections@[v] == mid.vertex_connections@[v]);
                }
                if v == a {
                    assert(mid.vertex_connections@[v]@.contains(x) <==> (pre.vertex_connections@[v]@.contains(x) || x == b));
                } else {
                    assert(mid.vertex_connections@[v] == pre.vertex_connections@[v]);
                }
            }
            assert forall|v: int, x: usize|
                0 <= v < self.vertex_connections@.len() && #[trigger] self.vertex_connections@[v]@.contains(x)
                implies self.vertex_connections@[x as int]@.contains(v as usize) by {
                assert(pre.vertex_connections@[v]@.contains(x) || (v == a && x == b) || (v == b && x == a));
                if pre.vertex_connections@[v]@.contains(x) {
                    assert(pre.vertex_connections@[x as int]@.contains(v as usize));
                }
                assert((x as int) < self.vertex_connections@.len()) by {
                    let j = choose|j: int| 0 <= j < self.vertex_connections@[v]@.len() && self.vertex_connections@[v]@[j] == x;
                }
            }
        }
    }
}

/// Whether `v` holds `x`.
pub fn contains_index(v: &Vec<usize>, x: usize) -> (r: bool)
    ensures
        r == v@.contains(x),
{
    let mut i: usize = 0;
    while i < v.len()
        invariant
            i <= v@.len(),
            forall|j: int| 0 <= j < i ==> v@[j] != x,
        decreases v@.len() - i,
    {
        if v[i] == x {
            assert(v@[i as int] == x);
            return true;
        }
        i = i + 1;
    }
    false
}

} // verus!

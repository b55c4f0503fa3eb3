//! Concave hull of a vertex subset: the short edges that occur once in the
//! subset's own triangulation, stitched into one walk.
use vstd::prelude::*;

use crate::geometry::{canon, dist_sq, Edge, Point};

verus! {

/// Why no hull could be formed.
#[derive(Debug, Clone, Copy, PartialEq, Eq, Structural)]
pub enum HullError {
    /// The subset's triangulation holds no triangle.
    NoTriangles,
    /// The triangulation names a position outside the subset, or the subset a
    /// vertex outside the points.
    IndexOutOfRange,
    /// No edge is short enough and occurs once.
    NoHullEdges,
    /// There were no edges to order.
    NoEdges,
    /// The edges do not form one walk.
    Disconnected,
    /// The edges form one walk, but it passes a vertex twice.
    Branched,
}

/// The position in the triangulation of the corner that follows corner `s`
/// around its triangle.
pub open spec fn partner(s: int) -> int {
    if s % 3 == 2 {
        s - 2
    } else {
        s + 1
    }
}

/// Whether every corner of the first `3 * (tris.len() / 3)` names a
/// position of the subset, and every position of it a point.
pub open spec fn valid_subset(n: nat, subset: Seq<usize>, tris: Seq<usize>) -> bool {
    &&& forall|i: int| 0 <= i < subset.len() ==> #[trigger] subset[i] < n
    &&& forall|s: int| 0 <= s < 3 * (tris.len() as int / 3) ==> #[trigger] tris[s] < subset.len()
}

/// The edge, in the points' own indices, from corner `s` to its partner.
pub open spec fn slot_edge(subset: Seq<usize>, tris: Seq<usize>, s: int) -> Edge {
    canon(subset[tris[s] as int], subset[tris[partner(s)] as int])
}

/// Whether the edge from corner `s` is shorter than the bound (squared).
pub open spec fn slot_short(
    points: Seq<Point>,
    subset: Seq<usize>,
    tris: Seq<usize>,
    s: int,
    alpha_sq: int,
) -> bool {
    dist_sq(points[subset[tris[s] as int] as int], points[subset[tris[partner(s)] as int] as int])
        < alpha_sq
}

/// The short edges from the first `upto` corners, in corner order, an edge
/// once for each corner it leaves from.
pub open spec fn short_edges(
    points: Seq<Point>,
    subset: Seq<usize>,
    tris: Seq<usize>,
    alpha_sq: int,
    upto: int,
) -> Seq<Edge>
    decreases upto,
{
    if upto <= 0 {
        Seq::empty()
    } else if slot_short(points, subset, tris, upto - 1, alpha_sq) {
        short_edges(points, subset, tris, alpha_sq, upto - 1).push(
            slot_edge(subset, tris, upto - 1),
        )
    } else {
        short_edges(points, subset, tris, alpha_sq, upto - 1)
    }
}

/// A count, with two standing for two or more.
pub open spec fn capped(n: nat) -> nat {
    if n >= 2 {
        2
    } else {
        n
    }
}

proof fn lemma_partner(s: int, len: int)
    requires
        0 <= s < 3 * (len / 3),
    ensures
        0 <= partner(s) < 3 * (len / 3),
{
}

/// The hull edges of a vertex subset: the edges of its triangulation
/// (positions into `subset`, three per triangle) that are shorter than
/// `alpha` and occur exactly once, each listed once.
pub fn hull_edges(points: &Vec<Point>, subset: &Vec<usize>, triangulation: &Vec<usize>, alpha: u64) -> (r:
    Result<Vec<Edge>, HullError>)
    ensures
        triangulation@.len() == 0 ==> r == Err::<Vec<Edge>, HullError>(HullError::NoTriangles),
        triangulation@.len() > 0 && !valid_subset(points@.len(), subset@, triangulation@) ==> r
            == Err::<Vec<Edge>, HullError>(HullError::IndexOutOfRange),
        triangulation@.len() > 0 && valid_subset(points@.len(), subset@, triangulation@) ==> {
            let all = short_edges(
                points@,
                subset@,
                triangulation@,
                alpha as int * alpha as int,
                3 * (triangulation@.len() as int / 3),
            );
            match r {
                Ok(edges) => {
                    &&& edges@.no_duplicates()
                    &&& edges@.len() > 0
                    &&& forall|e: Edge| #[trigger] edges@.contains(e) <==> all.to_multiset().count(e) == 1
                },
                Err(err) => {
                    &&& err == HullError::NoHullEdges
                    &&& forall|e: Edge| #[trigger] all.to_multiset().count(e) != 1
                },
            }
        },
{
    if triangulation.len() == 0 {
        return Err(HullError::NoTriangles);
    }
    let mut i: usize = 0;
    while i < subset.len()
        invariant
            triangulation@.len() > 0,
            i <= subset@.len(),
            forall|j: int| 0 <= j < i ==> #[trigger] subset@[j] < points@.len(),
        decreases subset@.len() - i,
    {
        if subset[i] >= points.len() {
            return Err(HullError::IndexOutOfRange);
        }
        i = i + 1;
    }
    let corners = triangulation.len() / 3 * 3;
    let mut s: usize = 0;
    while s < corners
        invariant
            triangulation@.len() > 0,
            forall|j: int| 0 <= j < subset@.len() ==> #[trigger] subset@[j] < points@.len(),
            corners == 3 * (triangulation@.len() as int / 3),
            corners <= triangulation@.len(),
            s <= corners,
            forall|j: int| 0 <= j < s ==> #[trigger] triangulation@[j] < subset@.len(),
        decreases corners - s,
    {
        if triangulation[s] >= subset.len() {
            return Err(HullError::IndexOutOfRange);
        }
        s = s + 1;
    }
    assert((alpha as u128) * (alpha as u128) <= u128::MAX) by (nonlinear_arith)
        requires
            alpha <= u64::MAX,
    ;
    let alpha_sq: u128 = alpha as u128 * alpha as u128;
    proof {
        let none = short_edges(points@, subset@, triangulation@, alpha_sq as int, 0);
        assert(none =~= Seq::<Edge>::empty());
        none.to_multiset_ensures();
    }
    let mut tally: Vec<(Edge, usize)> = Vec::new();
    let mut s: usize = 0;
    while s < corners
        invariant
            corners == 3 * (triangulation@.len() as int / 3),
            corners <= triangulation@.len(),
            s <= corners,
            valid_subset(points@.len(), subset@, triangulation@),
            alpha_sq == alpha as int * alpha as int,
            forall|a: int, b: int| 0 <= a < b < tally@.len() ==> tally@[a].0 != tally@[b].0,
            forall|a: int| 0 <= a < tally@.len() ==> (#[trigger] tally@[a]).1 == capped(short_edges(points@, subset@, triangulation@, alpha_sq as int, s as int).to_multiset().count(tally@[a].0)),
            forall|e: Edge| #[trigger] short_edges(points@, subset@, triangulation@, alpha_sq as int, s as int).to_multiset().count(e) > 0 ==> exists|a: int| 0 <= a < tally@.len() && tally@[a].0 == e,
        decreases corners - s,
    {
        let p = if s % 3 == 2 {
            s - 2
        } else {
            s + 1
        };
        proof {
            lemma_partner(s as int, triangulation@.len() as int);
        }
        let u = subset[triangulation[s]];
        let w = subset[triangulation[p]];
        let ghost before = short_edges(points@, subset@, triangulation@, alpha_sq as int, s as int);
        proof {
            before.to_multiset_ensures();
        }
        if points[u].squared_distance(&points[w]) < alpha_sq {
            let e = Edge::new(u, w);
            let ghost t0 = tally@;
            let mut a: usize = 0;
            let mut found = false;
            while a < tally.len() && !found
                invariant
                    tally@ == t0,
                    a <= tally@.len(),
                    forall|b: int| 0 <= b < a ==> tally@[b].0 != e,
                    found ==> a < tally@.len() && tally@[a as int].0 == e,
                decreases tally@.len() - a, if found { 0int } else { 1int },
            {
                if tally[a].0 == e {
                    found = true;
                } else {
                    a = a + 1;
                }
            }
            proof {
                assert(p == partner(s as int));
                assert(slot_short(points@, subset@, triangulation@, s as int, alpha_sq as int));
                assert(slot_edge(subset@, triangulation@, s as int) == e);
                assert(short_edges(points@, subset@, triangulation@, alpha_sq as int, s as int + 1) == before.push(e));
                before.to_multiset_ensures();
                assert(before.push(e).to_multiset() =~= before.to_multiset().insert(e));
            }
            if found {
                assert(a < tally@.len() && tally@[a as int].0 == e);
                let c = tally[a].1;
                let c2: usize = if c >= 2 {
                    2
                } else {
                    c + 1
                };
                tally.set(a, (e, c2));
            } else {
                assert(before.to_multiset().count(e) == 0);
                tally.push((e, 1));
                assert(tally@[t0.len() as int].0 == e);
            }
            proof {
                assert forall|b: int| 0 <= b < tally@.len() implies (#[trigger] tally@[b]).1 == capped(short_edges(points@, subset@, triangulation@, alpha_sq as int, s as int + 1).to_multiset().count(tally@[b].0)) by {
                    if b < t0.len() && tally@[b].0 != e {
                        assert(tally@[b] == t0[b]);
                    }
                }
                assert forall|f: Edge| #[trigger] short_edges(points@, subset@, triangulation@, alpha_sq as int, s as int + 1).to_multiset().count(f) > 0 implies exists|b: int| 0 <= b < tally@.len() && tally@[b].0 == f by {
                    if f == e {
                        if found {
                            assert(tally@[a as int].0 == f);
                        } else {
                            assert(tally@[t0.len() as int].0 == f);
                        }
                    } else {
                        assert(before.to_multiset().count(f) > 0);
                        let b = choose|b: int| 0 <= b < t0.len() && t0[b].0 == f;
                        assert(tally@[b].0 == f);
                    }
                }
            }
        } else {
            proof {
                assert(p == partner(s as int));
                assert(!slot_short(points@, subset@, triangulation@, s as int, alpha_sq as int));
                assert(short_edges(points@, subset@, triangulation@, alpha_sq as int, s as int + 1) == before);
            }
        }
        s = s + 1;
    }
    let ghost all = short_edges(points@, subset@, triangulation@, alpha_sq as int, corners as int);
    let mut edges: Vec<Edge> = Vec::new();
    let mut a: usize = 0;
    while a < tally.len()
        invariant
            a <= tally@.len(),
            forall|x: int, y: int| 0 <= x < y < tally@.len() ==> tally@[x].0 != tally@[y].0,
            forall|x: int| 0 <= x < tally@.len() ==> (#[trigger] tally@[x]).1 == capped(all.to_multiset().count(tally@[x].0)),
            edges@.no_duplicates(),
            forall|e: Edge| #[trigger] edges@.contains(e) <==> exists|x: int| 0 <= x < a && tally@[x].0 == e && tally@[x].1 == 1,
        decreases tally@.len() - a,
    {
        if tally[a].1 == 1 {
            let ghost e0 = edges@;
            let e = tally[a].0;
            assert(!e0.contains(e)) by {
                if e0.contains(e) {
                    let x = choose|x: int| 0 <= x < a && tally@[x].0 == e && tally@[x].1 == 1;
                }
            }
            edges.push(e);
            proof {
                assert forall|f: Edge| #[trigger] edges@.contains(f) <==> (e0.contains(f) || f == e) by {
                    if edges@.contains(f) {
                        let i = choose|i: int| 0 <= i < edges@.len() && edges@[i] == f;
                        if i < e0.len() {
                            assert(e0[i] == f);
                        }
                    }
                    if e0.contains(f) {
                        let i = choose|i: int| 0 <= i < e0.len() && e0[i] == f;
                        assert(edges@[i] == f);
                    }
                    if f == e {
                        assert(edges@[e0.len() as int] == e);
                    }
                }
                assert forall|f: Edge| #[trigger] edges@.contains(f) <==> exists|x: int| 0 <= x < a + 1 && tally@[x].0 == f && tally@[x].1 == 1 by {
                    if f == e {
                        assert(tally@[a as int].0 == f);
                    }
                }
                assert(edges@.no_duplicates()) by {
                    assert forall|i: int, j: int| 0 <= i < j < edges@.len() implies edges@[i] != edges@[j] by {
                        if j == e0.len() as int {
                            assert(e0.contains(e0[i]));
                        } else {
                            assert(edges@[i] == e0[i] && edges@[j] == e0[j]);
                        }
                    }
                }
            }
        } else {
            proof {
                assert forall|f: Edge| #[trigger] edges@.contains(f) <==> exists|x: int| 0 <= x < a + 1 && tally@[x].0 == f && tally@[x].1 == 1 by {
                    if exists|x: int| 0 <= x < a + 1 && tally@[x].0 == f && tally@[x].1 == 1 {
                        let x = choose|x: int| 0 <= x < a + 1 && tally@[x].0 == f && tally@[x].1 == 1;
                        assert(x != a);
                    }
                }
            }
        }
        a = a + 1;
    }
    proof {
        all.to_multiset_ensures();
        assert forall|e: Edge| #[trigger] edges@.contains(e) <==> all.to_multiset().count(e) == 1 by {
            if all.to_multiset().count(e) == 1 {
                let x = choose|x: int| 0 <= x < tally@.len() && tally@[x].0 == e;
                assert(tally@[x].1 == 1);
            }
            if edges@.contains(e) {
                let x = choose|x: int| 0 <= x < tally@.len() && tally@[x].0 == e && tally@[x].1 == 1;
                assert(tally@[x].1 == capped(all.to_multiset().count(tally@[x].0)));
            }
        }
    }
    if edges.len() == 0 {
        proof {
            assert forall|e: Edge| #[trigger] all.to_multiset().count(e) != 1 by {
                if all.to_multiset().count(e) == 1 {
                    assert(edges@.contains(e));
                }
            }
        }
        return Err(HullError::NoHullEdges);
    }
    Ok(edges)
}

/// Edge `e` joins `a` and `b`, in either direction.
pub open spec fn links(e: (usize, usize), a: usize, b: usize) -> bool {
    (e.0 == a && e.1 == b) || (e.0 == b && e.1 == a)
}

/// `w` walks along every edge exactly once: step `i` goes from `w[i]` to
/// `w[i + 1]` along edge `steps[i]`, and no edge is taken twice.
pub open spec fn walks(edges: Seq<(usize, usize)>, w: Seq<usize>, steps: Seq<int>) -> bool {
    &&& w.len() == edges.len() + 1
    &&& steps.len() == edges.len()
    &&& steps.no_duplicates()
    &&& forall|i: int|
        0 <= i < steps.len() ==> 0 <= #[trigger] steps[i] < edges.len() && links(
            edges[steps[i]],
            w[i],
            w[i + 1],
        )
}

/// A walk through the first edge, along distinct edges, that leaves some
/// edge unused and has no unused edge at either of its ends.
pub open spec fn stuck_walk(edges: Seq<(usize, usize)>, w: Seq<usize>, steps: Seq<int>) -> bool {
    &&& w.len() == steps.len() + 1
    &&& 0 < steps.len() < edges.len()
    &&& steps.contains(0)
    &&& steps.no_duplicates()
    &&& forall|i: int|
        0 <= i < steps.len() ==> 0 <= #[trigger] steps[i] < edges.len() && links(
            edges[steps[i]],
            w[i],
            w[i + 1],
        )
    &&& forall|j: int|
        0 <= j < edges.len() && !steps.contains(j) ==> #[trigger] edges[j].0 != w.last() && edges[j].1
            != w.last() && edges[j].0 != w[0] && edges[j].1 != w[0]
}

/// Walks the hull edges: from the first edge, repeatedly along the first
/// unused edge at the current end, listing every vertex passed; when that
/// end is stuck, the walk turns round and goes on from its start. Refused
/// when there are no edges, or when both ends are stuck with edges left
/// over.
fn walk_hull_edges(hull_edge_indices: &Vec<(usize, usize)>) -> (r: Result<Vec<usize>, HullError>)
    ensures
        hull_edge_indices@.len() == 0 <==> r == Err::<Vec<usize>, HullError>(HullError::NoEdges),
        r is Ok ==> exists|steps: Seq<int>| #[trigger] walks(hull_edge_indices@, r->Ok_0@, steps),
        r matches Err(err) ==> err == HullError::NoEdges || err == HullError::Disconnected,
        r == Err::<Vec<usize>, HullError>(HullError::Disconnected) ==> exists|w: Seq<usize>, steps: Seq<int>|
            #[trigger] stuck_walk(hull_edge_indices@, w, steps),
{
    let m = hull_edge_indices.len();
    if m == 0 {
        return Err(HullError::NoEdges);
    }
    let mut used: Vec<bool> = Vec::new();
    let mut i: usize = 0;
    while i < m
        invariant
            i <= m,
            used@.len() == i,
            forall|j: int| 0 <= j < i ==> !(#[trigger] used@[j]),
        decreases m - i,
    {
        used.push(false);
        i = i + 1;
    }
    used.set(0, true);
    let mut w: Vec<usize> = Vec::new();
    w.push(hull_edge_indices[0].0);
    w.push(hull_edge_indices[0].1);
    let mut current = hull_edge_indices[0].1;
    let ghost mut steps: Seq<int> = seq![0int];
    proof {
        assert forall|j: int| 0 <= j < m implies (#[trigger] used@[j] <==> steps.contains(j)) by {
            if j == 0 {
                assert(steps[0] == 0);
            } else if steps.contains(j) {
                let x = choose|x: int| 0 <= x < steps.len() && steps[x] == j;
            }
        }
    }
    let mut k: usize = 1;
    let mut turned = false;
    while k < m
        invariant
            m == hull_edge_indices@.len(),
            1 <= k <= m,
            used@.len() == m,
            w@.len() == k + 1,
            current == w@[k as int],
            steps.len() == k,
            used@[0],
            turned ==> forall|jj: int| 0 <= jj < m && !used@[jj] ==> #[trigger] hull_edge_indices@[jj].0
                != w@[0] && hull_edge_indices@[jj].1 != w@[0],
            steps.no_duplicates(),
            forall|i: int|
                0 <= i < steps.len() ==> 0 <= #[trigger] steps[i] < m && links(
                    hull_edge_indices@[steps[i]],
                    w@[i],
                    w@[i + 1],
                ),
            forall|j: int| 0 <= j < m ==> (#[trigger] used@[j] <==> steps.contains(j)),
        decreases m - k, if turned { 0int } else { 1int },
    {
        let mut j: usize = 0;
        let mut found = false;
        while j < m && !found
            invariant
                m == hull_edge_indices@.len(),
                1 <= k <= m,
                used@.len() == m,
                w@.len() == k + 1,
                turned ==> forall|jj: int| 0 <= jj < m && !used@[jj] ==> #[trigger] hull_edge_indices@[jj].0
                    != w@[0] && hull_edge_indices@[jj].1 != w@[0],
                j <= m,
                found ==> j < m && !used@[j as int] && (hull_edge_indices@[j as int].0 == current
                    || hull_edge_indices@[j as int].1 == current),
                !found ==> forall|jj: int| 0 <= jj < j ==> #[trigger] used@[jj] || (hull_edge_indices@[jj].0
                    != current && hull_edge_indices@[jj].1 != current),
            decreases m - j, if found { 0int } else { 1int },
        {
            if !used[j] && (hull_edge_indices[j].0 == current || hull_edge_indices[j].1 == current) {
                found = true;
            } else {
                j = j + 1;
            }
        }
        if !found && turned {
            proof {
                assert forall|jj: int| 0 <= jj < m && !steps.contains(jj) implies #[trigger] hull_edge_indices@[jj].0
                    != w@.last() && hull_edge_indices@[jj].1 != w@.last() && hull_edge_indices@[jj].0 != w@[0]
                    && hull_edge_indices@[jj].1 != w@[0] by {
                    assert(!used@[jj]);
                }
                assert(steps.contains(0));
                assert(stuck_walk(hull_edge_indices@, w@, steps));
            }
            return Err(HullError::Disconnected);
        }
        if !found {
            let ghost w0 = w@;
            let ghost s0 = steps;
            let mut back: Vec<usize> = Vec::new();
            let mut p: usize = w.len();
            while p > 0
                invariant
                    p <= w@.len(),
                    back@.len() == w@.len() - p,
                    forall|i: int| 0 <= i < back@.len() ==> back@[i] == w@[w@.len() - 1 - i],
                decreases p,
            {
                p = p - 1;
                back.push(w[p]);
            }
            w = back;
            current = w[k];
            turned = true;
            proof {
                steps = Seq::new(k as nat, |i: int| s0[k - 1 - i]);
                assert(w@.len() == k + 1);
                assert forall|i: int| 0 <= i < w@.len() implies w@[i] == w0[k - i] by {}
                assert forall|a: int, b: int| 0 <= a < b < steps.len() implies steps[a] != steps[b] by {
                    assert(steps[a] == s0[k - 1 - a] && steps[b] == s0[k - 1 - b]);
                }
                assert forall|i: int|
                    0 <= i < steps.len() implies 0 <= #[trigger] steps[i] < m && links(
                        hull_edge_indices@[steps[i]],
                        w@[i],
                        w@[i + 1],
                    ) by {
                    let o = k - 1 - i;
                    assert(steps[i] == s0[o]);
                    assert(0 <= s0[o] < m && links(hull_edge_indices@[s0[o]], w0[o], w0[o + 1]));
                    assert(w@[i] == w0[o + 1] && w@[i + 1] == w0[o]);
                }
                assert forall|jj: int| 0 <= jj < m implies (#[trigger] used@[jj] <==> steps.contains(jj)) by {
                    if steps.contains(jj) {
                        let x = choose|x: int| 0 <= x < steps.len() && steps[x] == jj;
                        assert(s0[k - 1 - x] == jj);
                    }
                    if s0.contains(jj) {
                        let x = choose|x: int| 0 <= x < s0.len() && s0[x] == jj;
                        assert(steps[k - 1 - x] == jj);
                    }
                }
                assert forall|jj: int| 0 <= jj < m && !used@[jj] implies #[trigger] hull_edge_indices@[jj].0
                    != w@[0] && hull_edge_indices@[jj].1 != w@[0] by {
                    assert(w@[0] == w0[k as int]);
                }
            }
            continue;
        }
        let next = if hull_edge_indices[j].0 == current {
            hull_edge_indices[j].1
        } else {
            hull_edge_indices[j].0
        };
        let ghost s0 = steps;
        let ghost w0 = w@;
        let ghost u0 = used@;
        used.set(j, true);
        w.push(next);
        current = next;
        proof {
            steps = steps.push(j as int);
            assert(!s0.contains(j as int));
            assert forall|a: int, b: int| 0 <= a < b < steps.len() implies steps[a] != steps[b] by {
                if b == s0.len() as int {
                    assert(s0.contains(s0[a]));
                } else {
                    assert(steps[a] == s0[a] && steps[b] == s0[b]);
                }
            }
            assert forall|i: int|
                0 <= i < steps.len() implies 0 <= #[trigger] steps[i] < m && links(
                    hull_edge_indices@[steps[i]],
                    w@[i],
                    w@[i + 1],
                ) by {
                if i < s0.len() {
                    assert(steps[i] == s0[i]);
                    assert(w@[i] == w0[i] && w@[i + 1] == w0[i + 1]);
                }
            }
            assert(w@[0] == w0[0]);
            if turned {
                assert forall|jj: int| 0 <= jj < m && !used@[jj] implies #[trigger] hull_edge_indices@[jj].0
                    != w@[0] && hull_edge_indices@[jj].1 != w@[0] by {
                    assert(!u0[jj]);
                }
            }
            assert forall|jj: int| 0 <= jj < m implies (#[trigger] used@[jj] <==> steps.contains(jj)) by {
                if steps.contains(jj) && jj != j {
                    let x = choose|x: int| 0 <= x < steps.len() && steps[x] == jj;
                    assert(s0[x] == jj);
                }
                if s0.contains(jj) {
                    let x = choose|x: int| 0 <= x < s0.len() && s0[x] == jj;
                    assert(steps[x] == jj);
                }
                if jj == j {
                    assert(steps[s0.len() as int] == jj);
                }
            }
        }
        k = k + 1;
    }
    assert(walks(hull_edge_indices@, w@, steps));
    let r: Result<Vec<usize>, HullError> = Ok(w);
    assert(r->Ok_0@ == w@);
    r
}

/// A walk as a boundary: a walk that ends where it started lists its start
/// once.
pub open spec fn ring_of(w: Seq<usize>) -> Seq<usize> {
    if w.len() > 1 && w.last() == w[0] {
        w.drop_last()
    } else {
        w
    }
}

/// Whether some value occurs twice in `v`.
fn has_repeat(v: &Vec<usize>) -> (r: bool)
    ensures
        r == !v@.no_duplicates(),
{
    let mut i: usize = 0;
    while i < v.len()
        invariant
            i <= v@.len(),
            forall|a: int, b: int| 0 <= a < b < v@.len() && a < i ==> v@[a] != v@[b],
        decreases v@.len() - i,
    {
        let mut j: usize = i + 1;
        while j < v.len()
            invariant
                i < v@.len(),
                i + 1 <= j <= v@.len(),
                forall|a: int, b: int| 0 <= a < b < v@.len() && a < i ==> v@[a] != v@[b],
                forall|b: int| i < b < j ==> v@[i as int] != v@[b],
            decreases v@.len() - j,
        {
            if v[i] == v[j] {
                return true;
            }
            j = j + 1;
        }
        i = i + 1;
    }
    false
}

/// Orders hull edges into one boundary: from the first edge, repeatedly
/// along the first unused edge at the current end; a boundary that closes
/// lists its start once. Refused when there are no edges, when the walk
/// stops with edges left over (the boundary is disconnected), or when it
/// passes a vertex twice (the boundary branches).
pub fn order_hull_edges(hull_edge_indices: &Vec<(usize, usize)>) -> (r: Result<Vec<usize>, HullError>)
    ensures
        hull_edge_indices@.len() == 0 <==> r == Err::<Vec<usize>, HullError>(HullError::NoEdges),
        r is Ok ==> r->Ok_0@.no_duplicates() && exists|w: Seq<usize>, steps: Seq<int>|
            #[trigger] walks(hull_edge_indices@, w, steps) && r->Ok_0@ == ring_of(w),
        r matches Err(err) ==> err == HullError::NoEdges || err == HullError::Disconnected || err
            == HullError::Branched,
        r == Err::<Vec<usize>, HullError>(HullError::Disconnected) ==> exists|w: Seq<usize>, steps: Seq<int>|
            #[trigger] stuck_walk(hull_edge_indices@, w, steps),
        r == Err::<Vec<usize>, HullError>(HullError::Branched) ==> exists|w: Seq<usize>, steps: Seq<int>|
            #[trigger] walks(hull_edge_indices@, w, steps) && !ring_of(w).no_duplicates(),
{
    let mut w = match walk_hull_edges(hull_edge_indices) {
        Ok(w) => w,
        Err(err) => {
            return Err(err);
        },
    };
    let ghost full = w@;
    if w.len() > 1 && w[w.len() - 1] == w[0] {
        w.pop();
    }
    assert(w@ == ring_of(full));
    if has_repeat(&w) {
        return Err(HullError::Branched);
    }
    let r: Result<Vec<usize>, HullError> = Ok(w);
    assert(r->Ok_0@ == ring_of(full));
    r
}

/// The pairs of endpoints of `edges`.
pub open spec fn as_pairs(edges: Seq<Edge>) -> Seq<(usize, usize)> {
    Seq::new(edges.len(), |i: int| (edges[i].0, edges[i].1))
}

/// The short edges of a subset's triangulation that occur once: the hull
/// edges of `concave_hull`.
pub open spec fn is_hull(
    points: Seq<Point>,
    subset: Seq<usize>,
    tris: Seq<usize>,
    alpha: u64,
    hull: Seq<Edge>,
) -> bool {
    &&& hull.no_duplicates()
    &&& forall|e: Edge| #[trigger] hull.contains(e) <==> short_edges(
        points,
        subset,
        tris,
        alpha as int * alpha as int,
        3 * (tris.len() as int / 3),
    ).to_multiset().count(e) == 1
}

/// The concave hull of a vertex subset, given the subset's triangulation
/// (positions into `subset`, three per triangle): the edges shorter than
/// `alpha` that occur exactly once, ordered into one boundary.
pub fn concave_hull(points: &Vec<Point>, subset: &Vec<usize>, triangulation: &Vec<usize>, alpha: u64) -> (r:
    Result<Vec<usize>, HullError>)
    ensures
        r == Err::<Vec<usize>, HullError>(HullError::NoTriangles) <==> triangulation@.len() == 0,
        r == Err::<Vec<usize>, HullError>(HullError::IndexOutOfRange) <==> (triangulation@.len() > 0
            && !valid_subset(points@.len(), subset@, triangulation@)),
        r == Err::<Vec<usize>, HullError>(HullError::NoHullEdges) <==> (triangulation@.len() > 0
            && valid_subset(points@.len(), subset@, triangulation@) && forall|e: Edge|
            #[trigger] short_edges(
                points@,
                subset@,
                triangulation@,
                alpha as int * alpha as int,
                3 * (triangulation@.len() as int / 3),
            ).to_multiset().count(e) != 1),
        r != Err::<Vec<usize>, HullError>(HullError::NoEdges),
        r is Ok ==> r->Ok_0@.no_duplicates() && exists|hull: Seq<Edge>, w: Seq<usize>, steps: Seq<int>|
            is_hull(points@, subset@, triangulation@, alpha, hull) && #[trigger] walks(as_pairs(hull), w, steps)
                && r->Ok_0@ == ring_of(w),
        r == Err::<Vec<usize>, HullError>(HullError::Disconnected) ==> exists|hull: Seq<Edge>, w: Seq<usize>, steps: Seq<int>|
            is_hull(points@, subset@, triangulation@, alpha, hull) && #[trigger] stuck_walk(as_pairs(hull), w, steps),
        r == Err::<Vec<usize>, HullError>(HullError::Branched) ==> exists|hull: Seq<Edge>, w: Seq<usize>, steps: Seq<int>|
            is_hull(points@, subset@, triangulation@, alpha, hull) && #[trigger] walks(as_pairs(hull), w, steps)
                && !ring_of(w).no_duplicates(),
{
    let edges = match hull_edges(points, subset, triangulation, alpha) {
        Ok(edges) => edges,
        Err(err) => {
            return Err(err);
        },
    };
    proof {
        assert(is_hull(points@, subset@, triangulation@, alpha, edges@));
        if triangulation@.len() > 0 && valid_subset(points@.len(), subset@, triangulation@) {
            let e = edges@[0];
            assert(edges@.contains(e));
        }
    }
    let mut pairs: Vec<(usize, usize)> = Vec::new();
    let mut i: usize = 0;
    while i < edges.len()
        invariant
            i <= edges@.len(),
            pairs@ == as_pairs(edges@).take(i as int),
        decreases edges@.len() - i,
    {
        pairs.push((edges[i].0, edges[i].1));
        i = i + 1;
        proof {
            assert(pairs@ =~= as_pairs(edges@).take(i as int));
        }
    }
    assert(pairs@ =~= as_pairs(edges@));
    let r = order_hull_edges(&pairs);
    match r {
        Ok(s) => {
            proof {
                let (w, steps) = choose|w: Seq<usize>, steps: Seq<int>|
                    #[trigger] walks(pairs@, w, steps) && s@ == ring_of(w);
                assert(walks(as_pairs(edges@), w, steps));
            }
            let r: Result<Vec<usize>, HullError> = Ok(s);
            r
        },
        Err(err) => {
            proof {
                if err == HullError::Disconnected {
                    let (w, steps) = choose|w: Seq<usize>, steps: Seq<int>| #[trigger] stuck_walk(pairs@, w, steps);
                    assert(stuck_walk(as_pairs(edges@), w, steps));
                }
                if err == HullError::Branched {
                    let (w, steps) = choose|w: Seq<usize>, steps: Seq<int>|
                        #[trigger] walks(pairs@, w, steps) && !ring_of(w).no_duplicates();
                    assert(walks(as_pairs(edges@), w, steps));
                }
                assert(pairs@.len() > 0);
            }
            Err(err)
        },
    }
}

} // verus!

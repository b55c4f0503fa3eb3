//! DTSCAN: density clustering over the adjacency of a triangulation.
use vstd::prelude::*;

use crate::geometry::canon;
use crate::graph::GeometryData;

verus! {

/// `y` is joined to `x` by an edge no longer than the bound (squared).
pub open spec fn close(g: GeometryData, x: usize, y: usize, max_sq: int) -> bool {
    &&& g.vertex_connections@[x as int]@.contains(y)
    &&& g.edge_length(canon(x, y)) matches Some(l) && l <= max_sq
}

/// `v` seeds a cluster: it has neighbours, at least `min_pts` of them, and
/// all of them close.
pub open spec fn is_core(g: GeometryData, v: usize, min_pts: usize, max_sq: int) -> bool {
    let nb = g.vertex_connections@[v as int]@;
    &&& nb.len() > 0
    &&& nb.len() >= min_pts
    &&& forall|j: int| 0 <= j < nb.len() ==> close(g, v, #[trigger] nb[j], max_sq)
}

/// `y` lies in one of the first `upto` clusters.
pub open spec fn in_clusters(r: Seq<Vec<usize>>, upto: int, y: usize) -> bool {
    exists|j: int| 0 <= j < upto && #[trigger] r[j]@.contains(y)
}

/// No vertex lies in two clusters, nor twice in one.
pub open spec fn pairwise_disjoint(r: Seq<Vec<usize>>) -> bool {
    &&& forall|i: int| 0 <= i < r.len() ==> (#[trigger] r[i])@.no_duplicates()
    &&& forall|i: int, j: int, y: usize|
        0 <= i < j < r.len() && #[trigger] r[i]@.contains(y) ==> !(#[trigger] r[j]@.contains(y))
}

/// What DTSCAN returns: clusters that are pairwise disjoint, each grown from
/// a core vertex along close edges (every member after the first is close to
/// an earlier one), each closed (a close neighbour of a member lies in that
/// cluster or an earlier one), together covering every core vertex, and
/// seeded in ascending vertex order, each by the smallest core vertex that no
/// earlier cluster holds.
pub open spec fn dtscan_result(g: GeometryData, min_pts: usize, max_sq: int, r: Seq<Vec<usize>>) -> bool {
    &&& pairwise_disjoint(r)
    &&& forall|i: int, x: usize|
        0 <= i < r.len() && #[trigger] r[i]@.contains(x) ==> x < g.vertex_count()
    &&& forall|i: int|
        0 <= i < r.len() ==> (#[trigger] r[i])@.len() > 0 && is_core(g, r[i]@[0], min_pts, max_sq)
    &&& forall|i: int, k: int|
        0 <= i < r.len() && 0 < k < r[i]@.len() ==> exists|j: int|
            0 <= j < k && close(g, r[i]@[j], #[trigger] r[i]@[k], max_sq)
    &&& forall|i: int, x: usize, y: usize|
        0 <= i < r.len() && #[trigger] r[i]@.contains(x) && #[trigger] close(g, x, y, max_sq)
            ==> in_clusters(r, i + 1, y)
    &&& forall|v: usize|
        v < g.vertex_count() && #[trigger] is_core(g, v, min_pts, max_sq) ==> in_clusters(
            r,
            r.len() as int,
            v,
        )
    &&& forall|i: int, j: int| 0 <= i < j < r.len() ==> #[trigger] r[i]@[0] < #[trigger] r[j]@[0]
    &&& forall|i: int, u: usize|
        0 <= i < r.len() && u < r[i]@[0] && is_core(g, u, min_pts, max_sq) ==> #[trigger] in_clusters(
            r,
            i,
            u,
        )
}

/// The number of `false` entries.
pub open spec fn count_false(s: Seq<bool>) -> nat
    decreases s.len(),
{
    if s.len() == 0 {
        0
    } else {
        count_false(s.drop_last()) + if s.last() {
            0nat
        } else {
            1nat
        }
    }
}

pub proof fn lemma_count_false_set(s: Seq<bool>, i: int)
    requires
        0 <= i < s.len(),
        !s[i],
    ensures
        count_false(s.update(i, true)) + 1 == count_false(s),
    decreases s.len(),
{
    if i < s.len() - 1 {
        lemma_count_false_set(s.drop_last(), i);
        assert(s.update(i, true).drop_last() =~= s.drop_last().update(i, true));
    } else {
        assert(s.update(i, true).drop_last() =~= s.drop_last());
    }
}

/// Whether `y` is joined to `x` by an edge whose squared length is at most
/// `max_sq`, given that `y` is among the neighbours of `x`.
fn is_close_edge(g: &GeometryData, x: usize, y: usize, max_sq: u128) -> (r: bool)
    requires
        g.wf(),
    ensures
        r == (g.edge_length(canon(x, y)) matches Some(l) && l <= max_sq),
{
    match g.get_edge_length(x, y) {
        Some(l) => l <= max_sq,
        None => false,
    }
}

/// Whether `v` is a core vertex.
fn check_core(g: &GeometryData, v: usize, min_pts: usize, max_sq: u128) -> (r: bool)
    requires
        g.wf(),
        v < g.vertex_count(),
    ensures
        r == is_core(*g, v, min_pts, max_sq as int),
{
    let nb = &g.vertex_connections[v];
    if nb.len() == 0 || nb.len() < min_pts {
        return false;
    }
    let mut j: usize = 0;
    while j < nb.len()
        invariant
            g.wf(),
            v < g.vertex_count(),
            nb@ == g.vertex_connections@[v as int]@,
            j <= nb@.len(),
            forall|i: int| 0 <= i < j ==> close(*g, v, #[trigger] nb@[i], max_sq as int),
        decreases nb@.len() - j,
    {
        if !is_close_edge(g, v, nb[j], max_sq) {
            assert(!close(*g, v, nb@[j as int], max_sq as int));
            return false;
        }
        assert(nb@.contains(nb@[j as int]));
        j = j + 1;
    }
    true
}

/// Grows the cluster of `seed` along close edges through vertices not yet
/// visited, marking each as visited.
fn expand_cluster(g: &GeometryData, seed: usize, max_sq: u128, visited: &mut Vec<bool>) -> (c: Vec<
    usize,
>)
    requires
        g.wf(),
        seed < g.vertex_count(),
        old(visited)@.len() == g.vertex_count(),
        !old(visited)@[seed as int],
    ensures
        final(visited)@.len() == g.vertex_count(),
        forall|x: int|
            0 <= x < g.vertex_count() ==> (#[trigger] final(visited)@[x] <==> (old(visited)@[x]
                || c@.contains(x as usize))),
        c@.no_duplicates(),
        c@.len() > 0,
        c@[0] == seed,
        forall|x: usize| #[trigger] c@.contains(x) ==> x < g.vertex_count() && !old(visited)@[x as int],
        forall|k: int| 0 < k < c@.len() ==> exists|j: int| 0 <= j < k && close(*g, c@[j], #[trigger] c@[k], max_sq as int),
        forall|x: usize, y: usize|
            #[trigger] c@.contains(x) && #[trigger] close(*g, x, y, max_sq as int) ==> (old(visited)@[y as int]
                || c@.contains(y)),
{
    let ghost v0 = visited@;
    let ghost n = g.vertex_count();
    proof {
        assert(g.edges@.len() == g.edges.len());
    }
    let mut c: Vec<usize> = Vec::new();
    let mut stack: Vec<usize> = Vec::new();
    stack.push(seed);
    while stack.len() > 0
        invariant
            g.wf(),
            n == g.vertex_count(),
            n <= usize::MAX,
            seed < n,
            !v0[seed as int],
            visited@.len() == n,
            v0.len() == n,
            forall|x: int| 0 <= x < n ==> (#[trigger] visited@[x] <==> (v0[x] || c@.contains(x as usize))),
            forall|i: int| 0 <= i < stack@.len() ==> #[trigger] stack@[i] < n,
            c@.no_duplicates(),
            forall|x: usize| #[trigger] c@.contains(x) ==> x < n && !v0[x as int],
            c@.len() == 0 ==> stack@ == seq![seed],
            c@.len() > 0 ==> c@[0] == seed,
            forall|k: int| 0 < k < c@.len() ==> exists|j: int| 0 <= j < k && close(*g, c@[j], #[trigger] c@[k], max_sq as int),
            forall|i: int|
                0 <= i < stack@.len() && c@.len() > 0 ==> exists|j: int|
                    0 <= j < c@.len() && close(*g, c@[j], #[trigger] stack@[i], max_sq as int),
            forall|x: usize, y: usize|
                #[trigger] c@.contains(x) && #[trigger] close(*g, x, y, max_sq as int) ==> (visited@[y as int]
                    || stack@.contains(y)),
        decreases count_false(visited@), stack@.len(),
    {
        let ghost stack0 = stack@;
        let cur = stack.pop().unwrap();
        assert(stack0 == stack@.push(cur));
        assert forall|y: usize| #[trigger] stack0.contains(y) implies stack@.contains(y) || y == cur by {
            let i = choose|i: int| 0 <= i < stack0.len() && stack0[i] == y;
            if i < stack@.len() {
                assert(stack@[i] == y);
            }
        }
        if visited[cur] {
            continue;
        }
        let ghost c0 = c@;
        let ghost vis0 = visited@;
        proof {
            lemma_count_false_set(visited@, cur as int);
            if c0.len() > 0 {
                assert(stack0[stack0.len() - 1] == cur);
            }
        }
        visited.set(cur, true);
        c.push(cur);
        proof {
            assert forall|x: usize| #[trigger] c@.contains(x) implies c0.contains(x) || x == cur by {
                let i = choose|i: int| 0 <= i < c@.len() && c@[i] == x;
                if i < c0.len() {
                    assert(c0[i] == x);
                }
            }
            assert forall|x: usize| c0.contains(x) implies #[trigger] c@.contains(x) by {
                let i = choose|i: int| 0 <= i < c0.len() && c0[i] == x;
                assert(c@[i] == x);
            }
            assert(c@[c0.len() as int] == cur);
            assert(c@.contains(cur));
            assert(c@.no_duplicates()) by {
                assert(!c0.contains(cur));
                assert forall|i: int, j: int| 0 <= i < j < c@.len() implies c@[i] != c@[j] by {
                    if j == c0.len() as int {
                        assert(c0.contains(c0[i]));
                    } else {
                        assert(c@[i] == c0[i] && c@[j] == c0[j]);
                    }
                }
            }
            assert forall|k: int| 0 < k < c@.len() implies exists|j: int| 0 <= j < k && close(*g, c@[j], #[trigger] c@[k], max_sq as int) by {
                if k < c0.len() {
                    let j = choose|j: int| 0 <= j < k && close(*g, c0[j], #[trigger] c0[k], max_sq as int);
                    assert(c@[j] == c0[j]);
                } else {
                    let j = choose|j: int| 0 <= j < c0.len() && close(*g, c0[j], #[trigger] stack0[stack0.len() - 1], max_sq as int);
                    assert(c@[j] == c0[j]);
                }
            }
        }
        proof {
            assert forall|i: int| 0 <= i < stack@.len() implies exists|k: int|
                0 <= k < c@.len() && close(*g, c@[k], #[trigger] stack@[i], max_sq as int) by {
                assert(stack@[i] == stack0[i]);
                let k = choose|k: int| 0 <= k < c0.len() && close(*g, c0[k], #[trigger] stack0[i], max_sq as int);
                assert(c@[k] == c0[k]);
            }
        }
        let nb = &g.vertex_connections[cur];
        let mut j: usize = 0;
        while j < nb.len()
            invariant
                g.wf(),
                n == g.vertex_count(),
                cur < n,
                nb@ == g.vertex_connections@[cur as int]@,
                j <= nb@.len(),
                visited@.len() == n,
                c@.len() > 0,
                c@.contains(cur),
                forall|i: int| 0 <= i < stack@.len() ==> #[trigger] stack@[i] < n,
                forall|i: int|
                    0 <= i < stack@.len() ==> exists|k: int|
                        0 <= k < c@.len() && close(*g, c@[k], #[trigger] stack@[i], max_sq as int),
                forall|y: usize| #[trigger] stack0.contains(y) ==> stack@.contains(y) || y == cur,
                forall|i: int| 0 <= i < j ==> close(*g, cur, #[trigger] nb@[i], max_sq as int) ==> (visited@[nb@[i] as int]
                    || stack@.contains(nb@[i])),
            decreases nb@.len() - j,
        {
            let y = nb[j];
            proof {
                assert(nb@.contains(y));
            }
            if is_close_edge(g, cur, y, max_sq) && !visited[y] {
                let ghost st = stack@;
                stack.push(y);
                proof {
                    assert(stack@[st.len() as int] == y);
                    assert forall|z: usize| #[trigger] st.contains(z) implies stack@.contains(z) by {
                        let i = choose|i: int| 0 <= i < st.len() && st[i] == z;
                        assert(stack@[i] == z);
                    }
                    let k = choose|k: int| 0 <= k < c@.len() && c@[k] == cur;
                    assert(close(*g, c@[k], y, max_sq as int));
                }
            }
            j = j + 1;
        }
        proof {
            assert forall|x: usize, y: usize|
                #[trigger] c@.contains(x) && #[trigger] close(*g, x, y, max_sq as int) implies (visited@[y as int]
                    || stack@.contains(y)) by {
                if x == cur {
                    let i = choose|i: int| 0 <= i < nb@.len() && nb@[i] == y;
                    assert(close(*g, cur, nb@[i], max_sq as int));
                } else {
                    assert(c0.contains(x));
                    assert(vis0[y as int] || stack0.contains(y));
                    if y == cur {
                        assert(visited@[cur as int]);
                    }
                }
            }
        }
    }
    c
}

/// Clusters the vertices of `g`: from each core vertex not yet visited, in
/// vertex order, a cluster grows along edges whose length is at most
/// `max_closeness`, through vertices no earlier cluster took.
pub fn dtscan(g: &GeometryData, min_pts: usize, max_closeness: u64) -> (r: Vec<Vec<usize>>)
    requires
        g.wf(),
    ensures
        dtscan_result(*g, min_pts, max_closeness as int * max_closeness as int, r@),
{
    assert((max_closeness as u128) * (max_closeness as u128) <= u128::MAX) by (nonlinear_arith)
        requires
            max_closeness <= u64::MAX,
    ;
    let max_sq: u128 = max_closeness as u128 * max_closeness as u128;
    let n = g.vertex_connections.len();
    let mut visited: Vec<bool> = Vec::new();
    let mut i: usize = 0;
    while i < n
        invariant
            i <= n,
            visited@.len() == i,
            forall|x: int| 0 <= x < i ==> !(#[trigger] visited@[x]),
        decreases n - i,
    {
        visited.push(false);
        i = i + 1;
    }
    let mut clusters: Vec<Vec<usize>> = Vec::new();
    let mut v: usize = 0;
    while v < n
        invariant
            g.wf(),
            n == g.vertex_count(),
            max_sq == max_closeness as int * max_closeness as int,
            v <= n,
            visited@.len() == n,
            forall|x: int| 0 <= x < n ==> (#[trigger] visited@[x] <==> in_clusters(clusters@, clusters@.len() as int, x as usize)),
            pairwise_disjoint(clusters@),
            forall|i: int, x: usize|
                0 <= i < clusters@.len() && #[trigger] clusters@[i]@.contains(x) ==> x < n,
            forall|i: int|
                0 <= i < clusters@.len() ==> (#[trigger] clusters@[i])@.len() > 0 && is_core(*g, clusters@[i]@[0], min_pts, max_sq as int),
            forall|i: int, k: int|
                0 <= i < clusters@.len() && 0 < k < clusters@[i]@.len() ==> exists|j: int|
                    0 <= j < k && close(*g, clusters@[i]@[j], #[trigger] clusters@[i]@[k], max_sq as int),
            forall|i: int, x: usize, y: usize|
                0 <= i < clusters@.len() && #[trigger] clusters@[i]@.contains(x) && #[trigger] close(*g, x, y, max_sq as int)
                    ==> in_clusters(clusters@, i + 1, y),
            forall|u: usize|
                u < v && #[trigger] is_core(*g, u, min_pts, max_sq as int) ==> in_clusters(
                    clusters@,
                    clusters@.len() as int,
                    u,
                ),
            forall|i: int| 0 <= i < clusters@.len() ==> (#[trigger] clusters@[i])@[0] < v,
            forall|i: int, j: int| 0 <= i < j < clusters@.len() ==> #[trigger] clusters@[i]@[0] < #[trigger] clusters@[j]@[0],
            forall|i: int, u: usize|
                0 <= i < clusters@.len() && u < clusters@[i]@[0] && is_core(*g, u, min_pts, max_sq as int) ==> #[trigger] in_clusters(
                    clusters@,
                    i,
                    u,
                ),
        decreases n - v,
    {
        if !visited[v] && check_core(g, v, min_pts, max_sq) {
            let ghost r0 = clusters@;
            let ghost vis0 = visited@;
            let c = expand_cluster(g, v, max_sq, &mut visited);
            clusters.push(c);
            proof {
                let m = r0.len() as int;
                assert(clusters@[m] == c);
                assert forall|j: int, y: usize| 0 <= j < m implies (#[trigger] clusters@[j]@.contains(y)) == r0[j]@.contains(y) by {
                    assert(clusters@[j] == r0[j]);
                }
                assert forall|upto: int, y: usize| 0 <= upto <= m && in_clusters(r0, upto, y) implies #[trigger] in_clusters(clusters@, upto, y) by {
                    let j = choose|j: int| 0 <= j < upto && #[trigger] r0[j]@.contains(y);
                    assert(clusters@[j]@.contains(y));
                }
                assert forall|y: usize| #[trigger] in_clusters(clusters@, m + 1, y) <==> (in_clusters(r0, m, y) || c@.contains(y)) by {
                    if in_clusters(clusters@, m + 1, y) {
                        let j = choose|j: int| 0 <= j < m + 1 && #[trigger] clusters@[j]@.contains(y);
                        if j < m {
                            assert(r0[j]@.contains(y));
                        }
                    }
                    if c@.contains(y) {
                        assert(clusters@[m]@.contains(y));
                    }
                    if in_clusters(r0, m, y) {
                        let j = choose|j: int| 0 <= j < m && #[trigger] r0[j]@.contains(y);
                        assert(clusters@[j]@.contains(y));
                    }
                }
                assert forall|x: int| 0 <= x < n implies (#[trigger] visited@[x] <==> in_clusters(clusters@, clusters@.len() as int, x as usize)) by {
                    assert(vis0[x] <==> in_clusters(r0, m, x as usize));
                }
                assert(pairwise_disjoint(clusters@)) by {
                    assert forall|i: int, j: int, y: usize|
                        0 <= i < j < clusters@.len() && #[trigger] clusters@[i]@.contains(y) implies !(#[trigger] clusters@[j]@.contains(y)) by {
                        if j == m {
                            assert(r0[i]@.contains(y));
                            assert(in_clusters(r0, m, y));
                            if c@.contains(y) {
                                assert(!vis0[y as int]);
                            }
                        } else {
                            assert(r0[i]@.contains(y));
                        }
                    }
                }
                assert forall|i: int, x: usize, y: usize|
                    0 <= i < clusters@.len() && #[trigger] clusters@[i]@.contains(x) && #[trigger] close(*g, x, y, max_sq as int)
                        implies in_clusters(clusters@, i + 1, y) by {
                    if i < m {
                        assert(r0[i]@.contains(x));
                        assert(in_clusters(r0, i + 1, y));
                    } else {
                        assert(vis0[y as int] || c@.contains(y));
                        if vis0[y as int] {
                            assert(in_clusters(r0, m, y));
                        }
                    }
                }
                assert forall|i: int, k: int|
                    0 <= i < clusters@.len() && 0 < k < clusters@[i]@.len() implies exists|j: int|
                        0 <= j < k && close(*g, clusters@[i]@[j], #[trigger] clusters@[i]@[k], max_sq as int) by {
                    if i < m {
                        assert(clusters@[i] == r0[i]);
                    }
                }
                assert forall|u: usize|
                    u < v + 1 && #[trigger] is_core(*g, u, min_pts, max_sq as int) implies in_clusters(
                        clusters@,
                        clusters@.len() as int,
                        u,
                    ) by {
                    if u < v {
                        assert(in_clusters(r0, m, u));
                    } else {
                        assert(c@[0] == v);
                        assert(c@.contains(v));
                    }
                }
                assert forall|i: int, j: int| 0 <= i < j < clusters@.len() implies #[trigger] clusters@[i]@[0] < #[trigger] clusters@[j]@[0] by {
                    assert(clusters@[i] == r0[i]);
                    if j < m {
                        assert(clusters@[j] == r0[j]);
                    }
                }
                assert forall|i: int, u: usize|
                    0 <= i < clusters@.len() && u < clusters@[i]@[0] && is_core(*g, u, min_pts, max_sq as int) implies #[trigger] in_clusters(
                        clusters@,
                        i,
                        u,
                    ) by {
                    if i < m {
                        assert(clusters@[i] == r0[i]);
                        assert(in_clusters(r0, i, u));
                    } else {
                        assert(in_clusters(r0, m, u));
                    }
                }
            }
        } else {
            proof {
                assert forall|u: usize|
                    u < v + 1 && #[trigger] is_core(*g, u, min_pts, max_sq as int) implies in_clusters(
                        clusters@,
                        clusters@.len() as int,
                        u,
                    ) by {
                    if u == v {
                        assert(visited@[v as int]);
                    }
                }
            }
        }
        v = v + 1;
    }
    clusters
}

/// `p` is a walk along close edges.
pub open spec fn close_walk(g: GeometryData, max_sq: int, p: Seq<usize>) -> bool {
    &&& p.len() >= 1
    &&& forall|k: int| 0 <= k < p.len() - 1 ==> #[trigger] close(g, p[k], p[k + 1], max_sq)
}

/// A close walk that starts in cluster `i` and avoids the earlier clusters
/// ends in cluster `i`.
proof fn lemma_walk_stays(
    g: GeometryData,
    min_pts: usize,
    max_sq: int,
    r: Seq<Vec<usize>>,
    i: int,
    p: Seq<usize>,
)
    requires
        dtscan_result(g, min_pts, max_sq, r),
        0 <= i < r.len(),
        close_walk(g, max_sq, p),
        r[i]@.contains(p[0]),
        forall|k: int| 0 <= k < p.len() ==> !in_clusters(r, i, #[trigger] p[k]),
    ensures
        r[i]@.contains(p.last()),
    decreases p.len(),
{
    if p.len() > 1 {
        let q = p.drop_last();
        assert forall|k: int| 0 <= k < q.len() - 1 implies #[trigger] close(g, q[k], q[k + 1], max_sq) by {
            assert(close(g, p[k], p[k + 1], max_sq));
        }
        assert forall|k: int| 0 <= k < q.len() implies !in_clusters(r, i, #[trigger] q[k]) by {
            assert(!in_clusters(r, i, p[k]));
        }
        lemma_walk_stays(g, min_pts, max_sq, r, i, q);
        let x = q.last();
        let y = p.last();
        let k = p.len() - 2;
        assert(close(g, p[k], p[k + 1], max_sq));
        assert(p[k] == x && p[k + 1] == y);
        assert(in_clusters(r, i + 1, y));
        let j = choose|j: int| 0 <= j < i + 1 && #[trigger] r[j]@.contains(y);
        if j < i {
            assert(!in_clusters(r, i, p[p.len() - 1]));
            assert(in_clusters(r, i, y));
        }
    }
}

/// Every member of cluster `i` ends a close walk from its seed through
/// members of the cluster.
proof fn lemma_member_reached(
    g: GeometryData,
    min_pts: usize,
    max_sq: int,
    r: Seq<Vec<usize>>,
    i: int,
    k: int,
) -> (p: Seq<usize>)
    requires
        dtscan_result(g, min_pts, max_sq, r),
        0 <= i < r.len(),
        0 <= k < r[i]@.len(),
    ensures
        close_walk(g, max_sq, p),
        p[0] == r[i]@[0],
        p.last() == r[i]@[k],
        forall|m: int| 0 <= m < p.len() ==> r[i]@.contains(#[trigger] p[m]),
    decreases k,
{
    if k == 0 {
        let p = seq![r[i]@[0]];
        assert(r[i]@.contains(r[i]@[0]));
        p
    } else {
        let j = choose|j: int| 0 <= j < k && close(g, r[i]@[j], #[trigger] r[i]@[k], max_sq);
        let q = lemma_member_reached(g, min_pts, max_sq, r, i, j);
        let p = q.push(r[i]@[k]);
        assert forall|m: int| 0 <= m < p.len() - 1 implies #[trigger] close(g, p[m], p[m + 1], max_sq) by {
            if m < q.len() - 1 {
                assert(close(g, q[m], q[m + 1], max_sq));
            }
        }
        assert forall|m: int| 0 <= m < p.len() implies r[i]@.contains(#[trigger] p[m]) by {
            if m < q.len() {
                assert(p[m] == q[m]);
            } else {
                assert(r[i]@[k] == p[m]);
            }
        }
        p
    }
}

/// Law: DTSCAN's result is determined by the graph and the thresholds: any
/// two results hold the same clusters, in the same order, each with the same
/// vertices. Running it twice gives the same clusters.
pub proof fn lemma_dtscan_deterministic(
    g: GeometryData,
    min_pts: usize,
    max_sq: int,
    r1: Seq<Vec<usize>>,
    r2: Seq<Vec<usize>>,
)
    requires
        dtscan_result(g, min_pts, max_sq, r1),
        dtscan_result(g, min_pts, max_sq, r2),
    ensures
        r1.len() == r2.len(),
        forall|i: int, y: usize| 0 <= i < r1.len() ==> (#[trigger] r1[i]@.contains(y) <==> r2[i]@.contains(y)),
{
    let m = if r1.len() < r2.len() { r1.len() as int } else { r2.len() as int };
    lemma_prefix_agrees(g, min_pts, max_sq, r1, r2, m);
    if r2.len() == m {
        lemma_not_longer(g, min_pts, max_sq, r1, r2, m);
    } else {
        lemma_not_longer(g, min_pts, max_sq, r2, r1, m);
    }
}

proof fn lemma_in_clusters_agree(r1: Seq<Vec<usize>>, r2: Seq<Vec<usize>>, i: int)
    requires
        i <= r1.len(),
        i <= r2.len(),
        forall|j: int, y: usize| 0 <= j < i ==> (#[trigger] r1[j]@.contains(y) <==> r2[j]@.contains(y)),
    ensures
        forall|y: usize| #[trigger] in_clusters(r1, i, y) <==> in_clusters(r2, i, y),
{
    assert forall|y: usize| #[trigger] in_clusters(r1, i, y) <==> in_clusters(r2, i, y) by {
        if in_clusters(r1, i, y) {
            let j = choose|j: int| 0 <= j < i && #[trigger] r1[j]@.contains(y);
            assert(r2[j]@.contains(y));
        }
        if in_clusters(r2, i, y) {
            let j = choose|j: int| 0 <= j < i && #[trigger] r2[j]@.contains(y);
            assert(r1[j]@.contains(y));
        }
    }
}

proof fn lemma_not_longer(
    g: GeometryData,
    min_pts: usize,
    max_sq: int,
    r1: Seq<Vec<usize>>,
    r2: Seq<Vec<usize>>,
    m: int,
)
    requires
        dtscan_result(g, min_pts, max_sq, r1),
        dtscan_result(g, min_pts, max_sq, r2),
        m == r2.len(),
        m <= r1.len(),
        forall|j: int, y: usize| 0 <= j < m ==> (#[trigger] r1[j]@.contains(y) <==> r2[j]@.contains(y)),
    ensures
        r1.len() == m,
{
    if r1.len() > m {
        let s = r1[m]@[0];
        assert(r1[m]@.contains(s));
        assert(is_core(g, s, min_pts, max_sq));
        assert(in_clusters(r2, m, s));
        lemma_in_clusters_agree(r1, r2, m);
        assert(in_clusters(r1, m, s));
        let j = choose|j: int| 0 <= j < m && #[trigger] r1[j]@.contains(s);
        assert(r1[j]@.contains(s));
    }
}

proof fn lemma_cluster_seeds_agree(
    g: GeometryData,
    min_pts: usize,
    max_sq: int,
    r1: Seq<Vec<usize>>,
    r2: Seq<Vec<usize>>,
    c: int,
)
    requires
        dtscan_result(g, min_pts, max_sq, r1),
        dtscan_result(g, min_pts, max_sq, r2),
        0 <= c < r1.len(),
        c < r2.len(),
        forall|z: usize| #[trigger] in_clusters(r1, c, z) <==> in_clusters(r2, c, z),
    ensures
        r1[c]@[0] == r2[c]@[0],
{
    let s1 = r1[c]@[0];
    let s2 = r2[c]@[0];
    assert(r1[c]@.contains(s1));
    assert(r2[c]@.contains(s2));
    if s1 < s2 {
        assert(is_core(g, s1, min_pts, max_sq));
        assert(in_clusters(r2, c, s1));
        assert(in_clusters(r1, c, s1));
        let j = choose|j: int| 0 <= j < c && #[trigger] r1[j]@.contains(s1);
        assert(r1[j]@.contains(s1));
    }
    if s2 < s1 {
        assert(is_core(g, s2, min_pts, max_sq));
        assert(in_clusters(r1, c, s2));
        assert(in_clusters(r2, c, s2));
        let j = choose|j: int| 0 <= j < c && #[trigger] r2[j]@.contains(s2);
        assert(r2[j]@.contains(s2));
    }
}

proof fn lemma_prefix_agrees(
    g: GeometryData,
    min_pts: usize,
    max_sq: int,
    r1: Seq<Vec<usize>>,
    r2: Seq<Vec<usize>>,
    i: int,
)
    requires
        dtscan_result(g, min_pts, max_sq, r1),
        dtscan_result(g, min_pts, max_sq, r2),
        0 <= i <= r1.len(),
        i <= r2.len(),
    ensures
        forall|j: int, y: usize| 0 <= j < i ==> (#[trigger] r1[j]@.contains(y) <==> r2[j]@.contains(y)),
    decreases i,
{
    if i > 0 {
        let c = i - 1;
        lemma_prefix_agrees(g, min_pts, max_sq, r1, r2, c);
        lemma_in_clusters_agree(r1, r2, c);
        lemma_in_clusters_agree(r2, r1, c);
        lemma_cluster_seeds_agree(g, min_pts, max_sq, r1, r2, c);
        assert forall|y: usize| #[trigger] r1[c]@.contains(y) implies r2[c]@.contains(y) by {
            lemma_cluster_included(g, min_pts, max_sq, r1, r2, c, y);
        }
        assert forall|y: usize| #[trigger] r2[c]@.contains(y) implies r1[c]@.contains(y) by {
            lemma_cluster_included(g, min_pts, max_sq, r2, r1, c, y);
        }
    }
}

proof fn lemma_cluster_included(
    g: GeometryData,
    min_pts: usize,
    max_sq: int,
    r1: Seq<Vec<usize>>,
    r2: Seq<Vec<usize>>,
    c: int,
    y: usize,
)
    requires
        dtscan_result(g, min_pts, max_sq, r1),
        dtscan_result(g, min_pts, max_sq, r2),
        0 <= c < r1.len(),
        c < r2.len(),
        r1[c]@[0] == r2[c]@[0],
        forall|z: usize| #[trigger] in_clusters(r1, c, z) <==> in_clusters(r2, c, z),
        r1[c]@.contains(y),
    ensures
        r2[c]@.contains(y),
{
    let k = choose|k: int| 0 <= k < r1[c]@.len() && r1[c]@[k] == y;
    let p = lemma_member_reached(g, min_pts, max_sq, r1, c, k);
    assert forall|m: int| 0 <= m < p.len() implies !in_clusters(r2, c, #[trigger] p[m]) by {
        assert(r1[c]@.contains(p[m]));
        if in_clusters(r1, c, p[m]) {
            let j = choose|j: int| 0 <= j < c && #[trigger] r1[j]@.contains(p[m]);
            assert(r1[j]@.contains(p[m]));
        }
    }
    assert(r2[c]@.contains(r2[c]@[0]));
    lemma_walk_stays(g, min_pts, max_sq, r2, c, p);
}

} // verus!

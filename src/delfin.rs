//! DELFIN: void regions grown greedily from the longest terminal edges.
use vstd::prelude::*;

use crate::dtscan::{count_false, lemma_count_false_set, pairwise_disjoint};
use crate::geometry::{cycle_edges, Edge};
use crate::graph::{contains_index, GeometryData};

verus! {

/// The terminal edge of triangle `t`, if its record has one.
pub open spec fn terminal_of(g: GeometryData, t: int) -> Option<Edge> {
    g.triangles@[t].terminal_edge
}

/// The edges of triangle `t`, from its record.
pub open spec fn edges_of(g: GeometryData, t: int) -> Seq<Edge> {
    cycle_edges(g.triangles@[t].vertices@)
}

/// Triangle `y` joins a region through `x`: `y` is a triangle of the graph
/// incident to an edge of `x` that is `y`'s terminal edge.
pub open spec fn joins(g: GeometryData, x: usize, y: usize) -> bool {
    &&& (y as int) < g.triangles@.len()
    &&& terminal_of(g, y as int) matches Some(e) && edges_of(g, x as int).contains(e)
        && g.edge_triangles(e).contains(y)
}

/// Every triangle that would join through edge `e` is marked.
pub open spec fn edge_done(g: GeometryData, e: Edge, marked: Seq<bool>) -> bool {
    forall|y: usize|
        #[trigger] g.edge_triangles(e).contains(y) && (y as int) < g.triangles@.len() && terminal_of(
            g,
            y as int,
        ) == Some(e) ==> marked[y as int]
}

proof fn lemma_done_grows(g: GeometryData, e: Edge, m1: Seq<bool>, m2: Seq<bool>)
    requires
        edge_done(g, e, m1),
        m1.len() == g.triangles@.len(),
        m2.len() == g.triangles@.len(),
        forall|y: int| 0 <= y < m1.len() && #[trigger] m1[y] ==> m2[y],
    ensures
        edge_done(g, e, m2),
{
    assert forall|y: usize|
        #[trigger] g.edge_triangles(e).contains(y) && (y as int) < g.triangles@.len() && terminal_of(
            g,
            y as int,
        ) == Some(e) implies m2[y as int] by {
        assert(m1[y as int]);
    }
}

/// `e` is an edge of a member of `region`.
pub open spec fn edge_of_region(g: GeometryData, region: Seq<usize>, e: Edge) -> bool {
    exists|j: int| 0 <= j < region.len() && #[trigger] edges_of(g, region[j] as int).contains(e)
}

/// Twice the area of a triangle, nothing where its record has none.
pub open spec fn area_of(g: GeometryData, t: usize) -> int {
    match g.triangles@[t as int].double_area {
        Some(a) => a as int,
        None => 0,
    }
}

/// Twice the total area of the triangles in `s`.
pub open spec fn region_area(g: GeometryData, s: Seq<usize>) -> int
    decreases s.len(),
{
    if s.len() == 0 {
        0
    } else {
        region_area(g, s.drop_last()) + area_of(g, s.last())
    }
}

/// Triangle `t` may seed a region: its terminal edge is in the graph and at
/// least as long as the bound (squared).
pub open spec fn seeds(g: GeometryData, t: usize, min_dist_sq: int) -> bool {
    terminal_of(g, t as int) matches Some(e) && g.edge_length(e) matches Some(l) && l >= min_dist_sq
}

/// The squared length of the terminal edge of `t`; zero where the graph
/// has none.
pub open spec fn terminal_len(g: GeometryData, t: usize) -> int {
    match terminal_of(g, t as int) {
        Some(e) => match g.edge_length(e) {
            Some(l) => l as int,
            None => 0,
        },
        None => 0,
    }
}

/// Seed `a` is taken before seed `b`: its terminal edge is longer, or as
/// long and its index smaller.
pub open spec fn seeds_before(g: GeometryData, a: usize, b: usize) -> bool {
    terminal_len(g, a) > terminal_len(g, b) || (terminal_len(g, a) == terminal_len(g, b) && a < b)
}

/// Triangle `t` of the graph may seed a region.
pub open spec fn candidate(g: GeometryData, t: usize, min_dist_sq: int) -> bool {
    (t as int) < g.triangles@.len() && seeds(g, t, min_dist_sq)
}

/// `y` lies in one of the first `upto` regions.
pub open spec fn in_regions(raw: Seq<Seq<usize>>, upto: int, y: usize) -> bool {
    exists|j: int| 0 <= j < upto && #[trigger] raw[j].contains(y)
}

/// The regions grown before any is dropped: pairwise disjoint; seeded in
/// order by the first seed no earlier region holds, until every seed is
/// held; each grown from its seed through joining triangles, and closed
/// under joining but for triangles of earlier regions.
pub open spec fn grown_regions(g: GeometryData, min_dist_sq: int, raw: Seq<Seq<usize>>) -> bool {
    &&& forall|i: int| 0 <= i < raw.len() ==> (#[trigger] raw[i]).no_duplicates()
    &&& forall|i: int, j: int, y: usize|
        0 <= i < j < raw.len() && #[trigger] raw[i].contains(y) ==> !(#[trigger] raw[j].contains(y))
    &&& forall|i: int, x: usize|
        0 <= i < raw.len() && #[trigger] raw[i].contains(x) ==> (x as int) < g.triangles@.len()
    &&& forall|i: int|
        0 <= i < raw.len() ==> (#[trigger] raw[i]).len() > 0 && candidate(g, raw[i][0], min_dist_sq)
    &&& forall|i: int, j: int|
        0 <= i < j < raw.len() ==> seeds_before(g, #[trigger] raw[i][0], #[trigger] raw[j][0])
    &&& forall|i: int, u: usize|
        0 <= i < raw.len() && candidate(g, u, min_dist_sq) && seeds_before(g, u, raw[i][0])
            ==> #[trigger] in_regions(raw, i, u)
    &&& forall|u: usize| #[trigger] candidate(g, u, min_dist_sq) ==> in_regions(raw, raw.len() as int, u)
    &&& forall|i: int, k: int|
        0 <= i < raw.len() && 0 < k < raw[i].len() ==> exists|j: int|
            0 <= j < k && joins(g, raw[i][j], #[trigger] raw[i][k])
    &&& forall|i: int, x: usize, y: usize|
        0 <= i < raw.len() && #[trigger] raw[i].contains(x) && #[trigger] joins(g, x, y) ==> in_regions(
            raw,
            i + 1,
            y,
        )
}

/// Whether a grown region is kept: more than one triangle, at least
/// `min_count` of them, and doubled area at least the bound.
pub open spec fn kept_region(g: GeometryData, min_count: int, min_double_area: int, region: Seq<usize>) -> bool {
    region.len() > 1 && region.len() >= min_count && region_area(g, region) >= min_double_area
}

/// The grown regions that are kept, in order.
pub open spec fn kept(g: GeometryData, min_count: int, min_double_area: int, raw: Seq<Seq<usize>>) -> Seq<Seq<usize>>
    decreases raw.len(),
{
    if raw.len() == 0 {
        Seq::empty()
    } else if kept_region(g, min_count, min_double_area, raw.last()) {
        kept(g, min_count, min_double_area, raw.drop_last()).push(raw.last())
    } else {
        kept(g, min_count, min_double_area, raw.drop_last())
    }
}

/// The views of a sequence of vectors.
pub open spec fn views(r: Seq<Vec<usize>>) -> Seq<Seq<usize>> {
    Seq::new(r.len(), |i: int| r[i]@)
}

/// What DELFIN returns: regions of triangles, pairwise disjoint, each of at
/// least two triangles and at least `min_count`, with doubled total area at least `min_double_area`,
/// each seeded by a triangle whose terminal edge is long enough, and each
/// grown by triangles whose terminal edge is an edge of an earlier member;
/// exactly the kept ones among the regions grown from the seeds in order.
pub open spec fn delfin_result(
    g: GeometryData,
    min_count: int,
    min_double_area: int,
    min_dist_sq: int,
    r: Seq<Vec<usize>>,
) -> bool {
    &&& kept_shape(g, min_count, min_double_area, min_dist_sq, r)
    &&& exists|raw: Seq<Seq<usize>>|
        grown_regions(g, min_dist_sq, raw) && #[trigger] kept(g, min_count, min_double_area, raw) == views(r)
}

/// Kept regions: pairwise disjoint, each of at least two triangles of the
/// graph and at least `min_count`, with doubled total area at least `min_double_area`, seeded by a
/// triangle whose terminal edge is long enough, and grown through joining
/// triangles.
pub open spec fn kept_shape(
    g: GeometryData,
    min_count: int,
    min_double_area: int,
    min_dist_sq: int,
    r: Seq<Vec<usize>>,
) -> bool {
    &&& pairwise_disjoint(r)
    &&& forall|i: int, x: usize|
        0 <= i < r.len() && #[trigger] r[i]@.contains(x) ==> x < g.triangles@.len()
    &&& forall|i: int|
        0 <= i < r.len() ==> (#[trigger] r[i])@.len() >= 2 && r[i]@.len() >= min_count && region_area(g, r[i]@)
            >= min_double_area && seeds(g, r[i]@[0], min_dist_sq)
    &&& forall|i: int, k: int|
        0 <= i < r.len() && 0 < k < r[i]@.len() ==> exists|j: int|
            0 <= j < k && joins(g, r[i]@[j], #[trigger] r[i]@[k])
}

proof fn lemma_area_remove(g: GeometryData, s: Seq<usize>, k: int)
    requires
        0 <= k < s.len(),
    ensures
        region_area(g, s) == region_area(g, s.remove(k)) + area_of(g, s[k]),
    decreases s.len(),
{
    if k < s.len() - 1 {
        lemma_area_remove(g, s.drop_last(), k);
        assert(s.remove(k).drop_last() =~= s.drop_last().remove(k));
        assert(s.remove(k).last() == s.last());
    } else {
        assert(s.remove(k) =~= s.drop_last());
    }
}

/// Two duplicate-free sequences with the same members have the same length
/// and the same doubled area.
proof fn lemma_same_members(g: GeometryData, s1: Seq<usize>, s2: Seq<usize>)
    requires
        s1.no_duplicates(),
        s2.no_duplicates(),
        forall|y: usize| #[trigger] s1.contains(y) <==> s2.contains(y),
    ensures
        s1.len() == s2.len(),
        region_area(g, s1) == region_area(g, s2),
    decreases s1.len(),
{
    if s1.len() == 0 {
        if s2.len() > 0 {
            assert(s2.contains(s2[0]));
            assert(s1.contains(s2[0]));
        }
    } else {
        let x = s1.last();
        assert(s1.contains(x));
        let k = choose|k: int| 0 <= k < s2.len() && s2[k] == x;
        let t1 = s1.drop_last();
        let t2 = s2.remove(k);
        assert forall|y: usize| #[trigger] t1.contains(y) <==> t2.contains(y) by {
            if t1.contains(y) {
                let i = choose|i: int| 0 <= i < t1.len() && t1[i] == y;
                assert(s1[i] == y);
                assert(s1.contains(y));
                assert(y != x);
                let j = choose|j: int| 0 <= j < s2.len() && s2[j] == y;
                if j < k {
                    assert(t2[j] == y);
                } else {
                    assert(j != k);
                    assert(t2[j - 1] == y);
                }
            }
            if t2.contains(y) {
                let j = choose|j: int| 0 <= j < t2.len() && t2[j] == y;
                let j2 = if j < k { j } else { j + 1 };
                assert(s2[j2] == y);
                assert(j2 != k);
                assert(s2[j2] != s2[k]);
                assert(y != x);
                assert(s2.contains(y));
                assert(s1.contains(y));
                let i = choose|i: int| 0 <= i < s1.len() && s1[i] == y;
                assert(s1[s1.len() - 1] == x);
                assert(i != s1.len() - 1);
                assert(t1[i] == y);
            }
        }
        assert(t2.no_duplicates()) by {
            assert forall|a: int, b: int| 0 <= a < b < t2.len() implies t2[a] != t2[b] by {
                let a2 = if a < k { a } else { a + 1 };
                let b2 = if b < k { b } else { b + 1 };
                assert(t2[a] == s2[a2] && t2[b] == s2[b2]);
            }
        }
        lemma_same_members(g, t1, t2);
        lemma_area_remove(g, s2, k);
    }
}

proof fn lemma_region_area_nonneg(g: GeometryData, s: Seq<usize>)
    ensures
        region_area(g, s) >= 0,
    decreases s.len(),
{
    if s.len() > 0 {
        lemma_region_area_nonneg(g, s.drop_last());
    }
}

proof fn lemma_region_area_prefix(g: GeometryData, s: Seq<usize>, k: int)
    requires
        0 <= k <= s.len(),
    ensures
        region_area(g, s) >= region_area(g, s.take(k)),
    decreases s.len(),
{
    if k < s.len() {
        lemma_region_area_prefix(g, s.drop_last(), k);
        assert(s.drop_last().take(k) =~= s.take(k));
    } else {
        assert(s.take(k) =~= s);
    }
}

/// Whether the triangles of `region` have doubled total area at least `target`.
pub fn meets_area(g: &GeometryData, region: &Vec<usize>, target: u128) -> (r: bool)
    requires
        forall|i: int| 0 <= i < region@.len() ==> #[trigger] region@[i] < g.triangles@.len(),
    ensures
        r == (region_area(*g, region@) >= target),
{
    proof {
        lemma_region_area_nonneg(*g, region@);
    }
    if target == 0 {
        return true;
    }
    let mut acc: u128 = 0;
    let mut i: usize = 0;
    assert(region@.take(0) =~= Seq::<usize>::empty());
    while i < region.len()
        invariant
            forall|i: int| 0 <= i < region@.len() ==> #[trigger] region@[i] < g.triangles@.len(),
            i <= region@.len(),
            acc < target,
            acc == region_area(*g, region@.take(i as int)),
        decreases region@.len() - i,
    {
        let a: u128 = match g.triangles[region[i]].double_area {
            Some(a) => a,
            None => 0,
        };
        proof {
            assert(region@.take(i as int + 1).drop_last() =~= region@.take(i as int));
            assert(a == area_of(*g, region@[i as int]));
        }
        if a >= target - acc {
            proof {
                lemma_region_area_prefix(*g, region@, i as int + 1);
            }
            return true;
        }
        acc = acc + a;
        i = i + 1;
    }
    assert(region@.take(i as int) =~= region@);
    false
}

/// Lexicographic order on pairs, as `Ord` for tuples has it.
pub open spec fn pair_le(a: (u128, usize), b: (u128, usize)) -> bool {
    a.0 < b.0 || (a.0 == b.0 && a.1 <= b.1)
}

/// Relies on `slice::sort_unstable`: the same elements, in ascending order
/// under the lexicographic `Ord` of tuples.
#[verifier::external_body]
fn sort_pairs(v: &mut Vec<(u128, usize)>)
    ensures
        final(v)@.to_multiset() == old(v)@.to_multiset(),
        forall|i: int, j: int| 0 <= i < j < final(v)@.len() ==> pair_le(final(v)@[i], final(v)@[j]),
{
    v.sort_unstable();
}

/// The triangles that may seed a region, each keyed so that ascending key
/// order is descending terminal length, then ascending index.
fn seed_candidates(g: &GeometryData, min_dist_sq: u128) -> (r: Vec<(u128, usize)>)
    requires
        g.edges_wf(),
    ensures
        forall|i: int|
            0 <= i < r@.len() ==> candidate(*g, (#[trigger] r@[i]).1, min_dist_sq as int) && r@[i].0
                == u128::MAX - terminal_len(*g, r@[i].1),
        forall|u: usize| #[trigger] candidate(*g, u, min_dist_sq as int) ==> exists|i: int| 0 <= i < r@.len() && r@[i].1 == u,
{
    let mut r: Vec<(u128, usize)> = Vec::new();
    let mut t: usize = 0;
    while t < g.triangles.len()
        invariant
            g.edges_wf(),
            t <= g.triangles@.len(),
            forall|i: int|
                0 <= i < r@.len() ==> candidate(*g, (#[trigger] r@[i]).1, min_dist_sq as int) && r@[i].0
                    == u128::MAX - terminal_len(*g, r@[i].1),
            forall|u: usize| u < t && #[trigger] candidate(*g, u, min_dist_sq as int) ==> exists|i: int| 0 <= i < r@.len() && r@[i].1 == u,
        decreases g.triangles@.len() - t,
    {
        let ghost r0 = r@;
        if let Some(e) = g.triangles[t].terminal_edge {
            if let Some(l) = g.length_of(e) {
                if l >= min_dist_sq {
                    r.push((u128::MAX - l, t));
                    proof {
                        assert(r@[r0.len() as int].1 == t);
                        assert forall|u: usize| u < t && #[trigger] candidate(*g, u, min_dist_sq as int) implies exists|i: int| 0 <= i < r@.len() && r@[i].1 == u by {
                            let i = choose|i: int| 0 <= i < r0.len() && r0[i].1 == u;
                            assert(r@[i] == r0[i]);
                        }
                    }
                }
            }
        }
        proof {
            assert forall|u: usize| u < t + 1 && #[trigger] candidate(*g, u, min_dist_sq as int) implies exists|i: int| 0 <= i < r@.len() && r@[i].1 == u by {
                if u == t {
                    assert(r@[r0.len() as int].1 == t);
                } else {
                    let i = choose|i: int| 0 <= i < r0.len() && r0[i].1 == u;
                    assert(r@[i] == r0[i]);
                }
            }
        }
        t = t + 1;
    }
    r
}

/// Grows the region of `seed`: a triangle joins when it is not processed
/// yet and its terminal edge is an edge of a member. Every member is marked
/// processed.
fn grow_region(g: &GeometryData, seed: usize, processed: &mut Vec<bool>) -> (region: Vec<usize>)
    requires
        g.edges_wf(),
        seed < g.triangles@.len(),
        old(processed)@.len() == g.triangles@.len(),
        !old(processed)@[seed as int],
    ensures
        final(processed)@.len() == g.triangles@.len(),
        forall|x: int|
            0 <= x < g.triangles@.len() ==> (#[trigger] final(processed)@[x] <==> (old(processed)@[x]
                || region@.contains(x as usize))),
        region@.no_duplicates(),
        region@.len() > 0,
        region@[0] == seed,
        forall|x: usize| #[trigger] region@.contains(x) ==> x < g.triangles@.len() && !old(processed)@[x as int],
        forall|k: int| 0 < k < region@.len() ==> exists|j: int| 0 <= j < k && joins(*g, region@[j], #[trigger] region@[k]),
        forall|x: usize, y: usize|
            #[trigger] region@.contains(x) && #[trigger] joins(*g, x, y) ==> old(processed)@[y as int]
                || region@.contains(y),
{
    let ghost p0 = processed@;
    let ghost n = g.triangles@.len();
    proof {
        assert(g.triangles@.len() == g.triangles.len());
    }
    let mut region: Vec<usize> = Vec::new();
    region.push(seed);
    proof {
        lemma_count_false_set(processed@, seed as int);
    }
    processed.set(seed, true);
    let mut stack: Vec<Edge> = g.triangles[seed].get_edges();
    proof {
        assert forall|x: usize| #[trigger] region@.contains(x) implies x == seed by {
            let i = choose|i: int| 0 <= i < region@.len() && region@[i] == x;
        }
        assert(region@[0] == seed);
        assert(region@.contains(seed));
        assert forall|i: int| 0 <= i < stack@.len() implies #[trigger] edge_of_region(*g, region@, stack@[i]) by {
            assert(edges_of(*g, region@[0] as int)[i] == stack@[i]);
            assert(edges_of(*g, region@[0] as int).contains(stack@[i]));
        }
    }
    while stack.len() > 0
        invariant
            g.edges_wf(),
            n == g.triangles@.len(),
            n <= usize::MAX,
            seed < n,
            p0.len() == n,
            processed@.len() == n,
            forall|x: int| 0 <= x < n ==> (#[trigger] processed@[x] <==> (p0[x] || region@.contains(x as usize))),
            region@.no_duplicates(),
            region@.len() > 0,
            region@[0] == seed,
            forall|x: usize| #[trigger] region@.contains(x) ==> x < n && !p0[x as int],
            forall|k: int| 0 < k < region@.len() ==> exists|j: int| 0 <= j < k && joins(*g, region@[j], #[trigger] region@[k]),
            forall|i: int| 0 <= i < stack@.len() ==> #[trigger] edge_of_region(*g, region@, stack@[i]),
            forall|j: int, f: Edge|
                0 <= j < region@.len() && #[trigger] edges_of(*g, region@[j] as int).contains(f) ==> stack@.contains(f)
                    || edge_done(*g, f, processed@),
        decreases count_false(processed@), stack@.len(),
    {
        let ghost stack0 = stack@;
        let ghost count0 = count_false(processed@);
        let e = stack.pop().unwrap();
        proof {
            assert(stack0 == stack@.push(e));
            assert forall|i: int| 0 <= i < stack@.len() implies #[trigger] edge_of_region(*g, region@, stack@[i]) by {
                assert(stack@[i] == stack0[i]);
            }
            assert(edge_of_region(*g, region@, stack0[stack0.len() - 1]));
            assert forall|f: Edge| #[trigger] stack0.contains(f) && f != e implies stack@.contains(f) by {
                let i = choose|i: int| 0 <= i < stack0.len() && stack0[i] == f;
                if i < stack@.len() {
                    assert(stack@[i] == f);
                }
            }
        }
        let neighbours = g.triangles_of(e);
        let mut j: usize = 0;
        while j < neighbours.len()
            invariant
                g.edges_wf(),
                n == g.triangles@.len(),
                n <= usize::MAX,
                seed < n,
                p0.len() == n,
                processed@.len() == n,
                forall|x: int| 0 <= x < n ==> (#[trigger] processed@[x] <==> (p0[x] || region@.contains(x as usize))),
                region@.no_duplicates(),
                region@.len() > 0,
                region@[0] == seed,
                forall|x: usize| #[trigger] region@.contains(x) ==> x < n && !p0[x as int],
                forall|k: int| 0 < k < region@.len() ==> exists|j: int| 0 <= j < k && joins(*g, region@[j], #[trigger] region@[k]),
                forall|i: int| 0 <= i < stack@.len() ==> #[trigger] edge_of_region(*g, region@, stack@[i]),
                edge_of_region(*g, region@, e),
                neighbours@ == g.edge_triangles(e),
                j <= neighbours@.len(),
                count_false(processed@) < count0 || stack@.len() < stack0.len(),
                count_false(processed@) <= count0,
                forall|jj: int, f: Edge|
                    0 <= jj < region@.len() && #[trigger] edges_of(*g, region@[jj] as int).contains(f) ==> stack@.contains(f)
                        || edge_done(*g, f, processed@) || f == e,
                forall|i: int|
                    0 <= i < j && (neighbours@[i] as int) < n && terminal_of(*g, neighbours@[i] as int) == Some(e)
                        ==> #[trigger] processed@[neighbours@[i] as int],
            decreases neighbours@.len() - j,
        {
            let t = neighbours[j];
            if t < g.triangles.len() && !processed[t] {
                let joined = match g.triangles[t].terminal_edge {
                    Some(te) => te == e,
                    None => false,
                };
                if joined {
                    let ghost r0 = region@;
                    let ghost pr0 = processed@;
                    proof {
                        lemma_count_false_set(processed@, t as int);
                    }
                    processed.set(t, true);
                    region.push(t);
                    let mut more = g.triangles[t].get_edges();
                    let ghost st0 = stack@;
                    stack.append(&mut more);
                    proof {
                        assert(region@ == r0.push(t));
                        assert forall|x: usize| #[trigger] region@.contains(x) <==> (r0.contains(x) || x == t) by {
                            if region@.contains(x) {
                                let i = choose|i: int| 0 <= i < region@.len() && region@[i] == x;
                                if i < r0.len() {
                                    assert(r0[i] == x);
                                }
                            }
                            if r0.contains(x) {
                                let i = choose|i: int| 0 <= i < r0.len() && r0[i] == x;
                                assert(region@[i] == x);
                            }
                            if x == t {
                                assert(region@[r0.len() as int] == t);
                            }
                        }
                        assert(!r0.contains(t));
                        assert(region@.no_duplicates()) by {
                            assert forall|a: int, b: int| 0 <= a < b < region@.len() implies region@[a] != region@[b] by {
                                if b == r0.len() as int {
                                    assert(r0.contains(r0[a]));
                                } else {
                                    assert(region@[a] == r0[a] && region@[b] == r0[b]);
                                }
                            }
                        }
                        let w = choose|w: int| 0 <= w < r0.len() && #[trigger] edges_of(*g, r0[w] as int).contains(e);
                        assert(neighbours@[j as int] == t);
                        assert(g.edge_triangles(e).contains(t));
                        assert(joins(*g, r0[w], t));
                        assert forall|k: int| 0 < k < region@.len() implies exists|jj: int| 0 <= jj < k && joins(*g, region@[jj], #[trigger] region@[k]) by {
                            if k < r0.len() {
                                let jj = choose|jj: int| 0 <= jj < k && joins(*g, r0[jj], #[trigger] r0[k]);
                                assert(region@[jj] == r0[jj]);
                            } else {
                                assert(region@[w] == r0[w]);
                            }
                        }
                        assert forall|i: int| 0 <= i < stack@.len() implies #[trigger] edge_of_region(*g, region@, stack@[i]) by {
                            if i < st0.len() {
                                assert(stack@[i] == st0[i]);
                                assert(edge_of_region(*g, r0, st0[i]));
                                let jj = choose|jj: int| 0 <= jj < r0.len() && #[trigger] edges_of(*g, r0[jj] as int).contains(st0[i]);
                                assert(region@[jj] == r0[jj]);
                                assert(edges_of(*g, region@[jj] as int).contains(stack@[i]));
                            } else {
                                assert(stack@[i] == edges_of(*g, t as int)[i - st0.len()]);
                                assert(edges_of(*g, t as int).contains(stack@[i]));
                                assert(region@[r0.len() as int] == t);
                            }
                        }
                        assert(region@[w] == r0[w]);
                        assert forall|y: int| 0 <= y < pr0.len() && #[trigger] pr0[y] implies processed@[y] by {}
                        assert forall|jj: int, f: Edge|
                            0 <= jj < region@.len() && #[trigger] edges_of(*g, region@[jj] as int).contains(f) implies stack@.contains(f)
                                || edge_done(*g, f, processed@) || f == e by {
                            if jj < r0.len() {
                                assert(region@[jj] == r0[jj]);
                                if st0.contains(f) {
                                    let i = choose|i: int| 0 <= i < st0.len() && st0[i] == f;
                                    assert(stack@[i] == f);
                                } else if edge_done(*g, f, pr0) {
                                    lemma_done_grows(*g, f, pr0, processed@);
                                }
                            } else {
                                assert(region@[jj] == t);
                                let i = choose|i: int| 0 <= i < edges_of(*g, t as int).len() && edges_of(*g, t as int)[i] == f;
                                assert(stack@[st0.len() + i] == f);
                            }
                        }
                    }
                }
            }
            j = j + 1;
        }
        proof {
            assert(edge_done(*g, e, processed@)) by {
                assert forall|y: usize|
                    #[trigger] g.edge_triangles(e).contains(y) && (y as int) < g.triangles@.len() && terminal_of(
                        *g,
                        y as int,
                    ) == Some(e) implies processed@[y as int] by {
                    let i = choose|i: int| 0 <= i < neighbours@.len() && neighbours@[i] == y;
                    assert(processed@[neighbours@[i] as int]);
                }
            }
        }
    }
    proof {
        assert forall|x: usize, y: usize|
            #[trigger] region@.contains(x) && #[trigger] joins(*g, x, y) implies p0[y as int] || region@.contains(y) by {
            let jx = choose|jx: int| 0 <= jx < region@.len() && region@[jx] == x;
            let e = terminal_of(*g, y as int)->Some_0;
            assert(edges_of(*g, region@[jx] as int).contains(e));
            assert(edge_done(*g, e, processed@));
            assert(processed@[y as int]);
        }
    }
    region
}

/// Finds void regions: triangles whose terminal edge is at least
/// `min_distance` long seed regions, longest first; a region grows through
/// triangles whose terminal edge is an edge of a member, never taking a
/// triangle an earlier region took. Regions of one triangle or of fewer than
/// `min_triangles`, and those whose area is below `min_area`, are dropped.
pub fn delfin_min_triangles(g: &GeometryData, min_area: u64, min_distance: u64, min_triangles: usize) -> (r: Vec<Vec<usize>>)
    requires
        g.edges_wf(),
    ensures
        delfin_result(
            *g,
            min_triangles as int,
            2 * min_area as int,
            min_distance as int * min_distance as int,
            r@,
        ),
{
    assert((min_distance as u128) * (min_distance as u128) <= u128::MAX) by (nonlinear_arith)
        requires
            min_distance <= u64::MAX,
    ;
    let min_dist_sq: u128 = min_distance as u128 * min_distance as u128;
    let target: u128 = 2 * min_area as u128;
    let mut order = seed_candidates(g, min_dist_sq);
    let ghost unsorted = order@;
    sort_pairs(&mut order);
    let ghost md = min_dist_sq as int;
    proof {
        unsorted.to_multiset_ensures();
        order@.to_multiset_ensures();
        assert forall|i: int| 0 <= i < order@.len() implies candidate(*g, (#[trigger] order@[i]).1, md) && order@[i].0
            == u128::MAX - terminal_len(*g, order@[i].1) by {
            assert(order@.contains(order@[i]));
            assert(order@.to_multiset().count(order@[i]) > 0);
            assert(unsorted.to_multiset().count(order@[i]) > 0);
            assert(unsorted.contains(order@[i]));
            let k = choose|k: int| 0 <= k < unsorted.len() && unsorted[k] == order@[i];
        }
        assert forall|u: usize| #[trigger] candidate(*g, u, md) implies exists|p: int| 0 <= p < order@.len() && order@[p].1 == u by {
            let k = choose|k: int| 0 <= k < unsorted.len() && unsorted[k].1 == u;
            assert(unsorted.contains(unsorted[k]));
            assert(unsorted.to_multiset().count(unsorted[k]) > 0);
            assert(order@.to_multiset().count(unsorted[k]) > 0);
            assert(order@.contains(unsorted[k]));
            let p = choose|p: int| 0 <= p < order@.len() && order@[p] == unsorted[k];
        }
    }
    let n = g.triangles.len();
    let mut processed: Vec<bool> = Vec::new();
    let mut i: usize = 0;
    while i < n
        invariant
            i <= n,
            processed@.len() == i,
            forall|x: int| 0 <= x < i ==> !(#[trigger] processed@[x]),
        decreases n - i,
    {
        processed.push(false);
        i = i + 1;
    }
    let mut regions: Vec<Vec<usize>> = Vec::new();
    let ghost mut raw: Seq<Seq<usize>> = Seq::empty();
    proof {
        assert(kept(*g, min_triangles as int, target as int, raw) =~= views(regions@));
    }
    let mut i: usize = 0;
    while i < order.len()
        invariant
            g.edges_wf(),
            n == g.triangles@.len(),
            processed@.len() == n,
            target == 2 * min_area as int,
            min_dist_sq == min_distance as int * min_distance as int,
            md == min_dist_sq as int,
            forall|i: int| 0 <= i < order@.len() ==> candidate(*g, (#[trigger] order@[i]).1, md) && order@[i].0
                == u128::MAX - terminal_len(*g, order@[i].1),
            forall|u: usize| #[trigger] candidate(*g, u, md) ==> exists|p: int| 0 <= p < order@.len() && order@[p].1 == u,
            forall|a: int, b: int| 0 <= a < b < order@.len() ==> pair_le(order@[a], order@[b]),
            i <= order@.len(),
            kept_shape(*g, min_triangles as int, target as int, md, regions@),
            kept(*g, min_triangles as int, target as int, raw) == views(regions@),
            forall|k: int, x: usize| 0 <= k < regions@.len() && #[trigger] regions@[k]@.contains(x) ==> processed@[x as int],
            forall|x: int| 0 <= x < n ==> (#[trigger] processed@[x] <==> in_regions(raw, raw.len() as int, x as usize)),
            forall|j: int| 0 <= j < raw.len() ==> (#[trigger] raw[j]).no_duplicates(),
            forall|a: int, b: int, y: usize|
                0 <= a < b < raw.len() && #[trigger] raw[a].contains(y) ==> !(#[trigger] raw[b].contains(y)),
            forall|j: int, x: usize| 0 <= j < raw.len() && #[trigger] raw[j].contains(x) ==> (x as int) < n,
            forall|j: int| 0 <= j < raw.len() ==> (#[trigger] raw[j]).len() > 0 && candidate(*g, raw[j][0], md),
            forall|a: int, b: int| 0 <= a < b < raw.len() ==> seeds_before(*g, #[trigger] raw[a][0], #[trigger] raw[b][0]),
            forall|j: int, u: usize|
                0 <= j < raw.len() && candidate(*g, u, md) && seeds_before(*g, u, raw[j][0])
                    ==> #[trigger] in_regions(raw, j, u),
            forall|j: int, k: int|
                0 <= j < raw.len() && 0 < k < raw[j].len() ==> exists|m: int|
                    0 <= m < k && joins(*g, raw[j][m], #[trigger] raw[j][k]),
            forall|j: int, x: usize, y: usize|
                0 <= j < raw.len() && #[trigger] raw[j].contains(x) && #[trigger] joins(*g, x, y) ==> in_regions(
                    raw,
                    j + 1,
                    y,
                ),
            forall|p: int| 0 <= p < i ==> #[trigger] processed@[order@[p].1 as int],
            forall|j: int| 0 <= j < raw.len() ==> exists|p: int| 0 <= p < i && order@[p].1 == #[trigger] raw[j][0],
        decreases order@.len() - i,
    {
        let t = order[i].1;
        if !processed[t] {
            let ghost pr0 = processed@;
            let ghost r0 = regions@;
            let ghost raw0 = raw;
            let region = grow_region(g, t, &mut processed);
            proof {
                assert forall|j: int| 0 <= j < region@.len() implies #[trigger] region@[j] < g.triangles@.len() by {
                    assert(region@.contains(region@[j]));
                }
            }
            let keep = region.len() > 1 && region.len() >= min_triangles && meets_area(g, &region, target);
            proof {
                raw = raw0.push(region@);
                let m = raw0.len() as int;
                assert(raw[m] == region@);
                assert forall|j: int| 0 <= j < m implies #[trigger] raw[j] == raw0[j] by {}
                assert(raw.drop_last() =~= raw0);
                assert forall|upto: int, y: usize| 0 <= upto <= m && in_regions(raw0, upto, y) implies #[trigger] in_regions(raw, upto, y) by {
                    let j = choose|j: int| 0 <= j < upto && #[trigger] raw0[j].contains(y);
                    assert(raw[j].contains(y));
                }
                assert forall|upto: int, y: usize| 0 <= upto <= m && #[trigger] in_regions(raw, upto, y) implies in_regions(raw0, upto, y) by {
                    let j = choose|j: int| 0 <= j < upto && #[trigger] raw[j].contains(y);
                    assert(raw0[j].contains(y));
                }
                assert forall|y: usize| #[trigger] in_regions(raw, m + 1, y) <==> (in_regions(raw0, m, y) || region@.contains(y)) by {
                    if in_regions(raw, m + 1, y) {
                        let j = choose|j: int| 0 <= j < m + 1 && #[trigger] raw[j].contains(y);
                        if j < m {
                            assert(raw0[j].contains(y));
                        }
                    }
                    if region@.contains(y) {
                        assert(raw[m].contains(y));
                    }
                    if in_regions(raw0, m, y) {
                        let j = choose|j: int| 0 <= j < m && #[trigger] raw0[j].contains(y);
                        assert(raw[j].contains(y));
                    }
                }
                assert forall|x: int| 0 <= x < n implies (#[trigger] processed@[x] <==> in_regions(raw, raw.len() as int, x as usize)) by {
                    assert(pr0[x] <==> in_regions(raw0, m, x as usize));
                }
                assert forall|a: int, b: int, y: usize|
                    0 <= a < b < raw.len() && #[trigger] raw[a].contains(y) implies !(#[trigger] raw[b].contains(y)) by {
                    if b == m {
                        assert(raw0[a].contains(y));
                        assert(in_regions(raw0, m, y));
                        if region@.contains(y) {
                            assert(!pr0[y as int]);
                        }
                    } else {
                        assert(raw0[a].contains(y));
                    }
                }
                assert forall|j: int, x: usize| 0 <= j < raw.len() && #[trigger] raw[j].contains(x) implies (x as int) < n by {
                    if j < m {
                        assert(raw0[j].contains(x));
                    }
                }
                assert(region@[0] == t);
                assert(candidate(*g, order@[i as int].1, md));
                assert forall|a: int, b: int| 0 <= a < b < raw.len() implies seeds_before(*g, #[trigger] raw[a][0], #[trigger] raw[b][0]) by {
                    if b == m {
                        let p = choose|p: int| 0 <= p < i && order@[p].1 == raw0[a][0];
                        assert(pair_le(order@[p], order@[i as int]));
                        assert(raw0[a].contains(raw0[a][0]));
                        assert(processed@[order@[p].1 as int]);
                        assert(pr0[raw0[a][0] as int]);
                        assert(raw0[a][0] != t);
                    } else {
                        assert(raw[a] == raw0[a] && raw[b] == raw0[b]);
                    }
                }
                assert forall|j: int, u: usize|
                    0 <= j < raw.len() && candidate(*g, u, md) && seeds_before(*g, u, raw[j][0])
                        implies #[trigger] in_regions(raw, j, u) by {
                    if j < m {
                        assert(in_regions(raw0, j, u));
                    } else {
                        let p = choose|p: int| 0 <= p < order@.len() && order@[p].1 == u;
                        if p >= i {
                            if p > i {
                                assert(pair_le(order@[i as int], order@[p]));
                            }
                        }
                        assert(pr0[u as int]);
                        assert(in_regions(raw0, m, u));
                    }
                }
                assert forall|j: int, k: int|
                    0 <= j < raw.len() && 0 < k < raw[j].len() implies exists|mm: int|
                        0 <= mm < k && joins(*g, raw[j][mm], #[trigger] raw[j][k]) by {
                    if j < m {
                        assert(raw[j] == raw0[j]);
                    }
                }
                assert forall|j: int, x: usize, y: usize|
                    0 <= j < raw.len() && #[trigger] raw[j].contains(x) && #[trigger] joins(*g, x, y) implies in_regions(
                        raw,
                        j + 1,
                        y,
                    ) by {
                    if j < m {
                        assert(raw0[j].contains(x));
                        assert(in_regions(raw0, j + 1, y));
                    } else {
                        assert(pr0[y as int] || region@.contains(y));
                        if pr0[y as int] {
                            assert(in_regions(raw0, m, y));
                        }
                    }
                }
                assert forall|p: int| 0 <= p < i + 1 implies #[trigger] processed@[order@[p].1 as int] by {
                    if p < i {
                        assert(pr0[order@[p].1 as int]);
                    } else {
                        assert(region@.contains(t));
                    }
                }
                assert forall|j: int| 0 <= j < raw.len() implies exists|p: int| 0 <= p < i + 1 && order@[p].1 == #[trigger] raw[j][0] by {
                    if j < m {
                        assert(raw[j] == raw0[j]);
                        let p = choose|p: int| 0 <= p < i && order@[p].1 == raw0[j][0];
                    } else {
                        assert(order@[i as int].1 == raw[j][0]);
                    }
                }
            }
            if keep {
                regions.push(region);
                proof {
                    let m = r0.len() as int;
                    assert(regions@[m] == region);
                    assert forall|k: int| 0 <= k < m implies #[trigger] regions@[k] == r0[k] by {}
                    assert(kept(*g, min_triangles as int, target as int, raw) =~= views(regions@)) by {
                        assert(kept(*g, min_triangles as int, target as int, raw) == kept(*g, min_triangles as int, target as int, raw0).push(region@));
                    }
                    assert(pairwise_disjoint(regions@)) by {
                        assert forall|a: int, b: int, y: usize|
                            0 <= a < b < regions@.len() && #[trigger] regions@[a]@.contains(y) implies !(#[trigger] regions@[b]@.contains(y)) by {
                            if b == m {
                                assert(r0[a]@.contains(y));
                                assert(pr0[y as int]);
                            } else {
                                assert(r0[a]@.contains(y));
                            }
                        }
                    }
                    assert forall|a: int, k: int|
                        0 <= a < regions@.len() && 0 < k < regions@[a]@.len() implies exists|j: int|
                            0 <= j < k && joins(*g, regions@[a]@[j], #[trigger] regions@[a]@[k]) by {
                        if a < m {
                            assert(regions@[a] == r0[a]);
                        }
                    }
                    assert forall|k: int, x: usize| 0 <= k < regions@.len() && #[trigger] regions@[k]@.contains(x) implies processed@[x as int] by {
                        if k < m {
                            assert(r0[k]@.contains(x));
                            assert(pr0[x as int]);
                        }
                    }
                }
            } else {
                proof {
                    assert(kept(*g, min_triangles as int, target as int, raw) == kept(*g, min_triangles as int, target as int, raw0));
                    assert forall|k: int, x: usize| 0 <= k < regions@.len() && #[trigger] regions@[k]@.contains(x) implies processed@[x as int] by {
                        assert(pr0[x as int]);
                    }
                }
            }
        }
        i = i + 1;
    }
    proof {
        assert forall|u: usize| #[trigger] candidate(*g, u, md) implies in_regions(raw, raw.len() as int, u) by {
            let p = choose|p: int| 0 <= p < order@.len() && order@[p].1 == u;
            assert(processed@[order@[p].1 as int]);
        }
        assert(grown_regions(*g, md, raw));
    }
    regions
}

/// Finds void regions as `delfin_min_triangles` does, keeping regions of
/// at least two triangles.
pub fn delfin(g: &GeometryData, min_area: u64, min_distance: u64) -> (r: Vec<Vec<usize>>)
    requires
        g.edges_wf(),
    ensures
        delfin_result(
            *g,
            2,
            2 * min_area as int,
            min_distance as int * min_distance as int,
            r@,
        ),
{
    delfin_min_triangles(g, min_area, min_distance, 2)
}

/// Vertex `v` is a corner of the `i`-th triangle of `region`.
pub open spec fn corner_of(g: GeometryData, region: Seq<usize>, i: int, v: usize) -> bool {
    (region[i] as int) < g.triangles@.len() && g.triangles@[region[i] as int].vertices@.contains(v)
}

/// The vertices of a region: every corner of its triangles, each once.
pub fn region_vertices(g: &GeometryData, region: &Vec<usize>) -> (r: Vec<usize>)
    ensures
        r@.no_duplicates(),
        forall|v: usize|
            #[trigger] r@.contains(v) <==> exists|i: int| 0 <= i < region@.len() && corner_of(*g, region@, i, v),
{
    let mut r: Vec<usize> = Vec::new();
    let mut i: usize = 0;
    while i < region.len()
        invariant
            i <= region@.len(),
            r@.no_duplicates(),
            forall|v: usize| #[trigger] r@.contains(v) <==> exists|j: int| 0 <= j < i && corner_of(*g, region@, j, v),
        decreases region@.len() - i,
    {
        let t = region[i];
        if t < g.triangles.len() {
            let verts = &g.triangles[t].vertices;
            let mut k: usize = 0;
            while k < verts.len()
                invariant
                    i < region@.len(),
                    t == region@[i as int],
                    (t as int) < g.triangles@.len(),
                    verts@ == g.triangles@[t as int].vertices@,
                    k <= verts@.len(),
                    r@.no_duplicates(),
                    forall|v: usize| #[trigger] r@.contains(v) <==> ((exists|j: int| 0 <= j < i && corner_of(*g, region@, j, v))
                        || verts@.take(k as int).contains(v)),
                decreases verts@.len() - k,
            {
                let v = verts[k];
                let ghost r0 = r@;
                proof {
                    assert(verts@.take(k as int + 1) == verts@.take(k as int).push(v));
                    let s0 = verts@.take(k as int);
                    assert forall|x: usize| #[trigger] s0.push(v).contains(x) <==> (s0.contains(x) || x == v) by {
                        if s0.push(v).contains(x) && x != v {
                            let j = choose|j: int| 0 <= j < s0.push(v).len() && s0.push(v)[j] == x;
                            assert(s0[j] == x);
                        }
                        if s0.contains(x) {
                            let j = choose|j: int| 0 <= j < s0.len() && s0[j] == x;
                            assert(s0.push(v)[j] == x);
                        }
                        if x == v {
                            assert(s0.push(v)[k as int] == v);
                        }
                    }
                }
                if !contains_index(&r, v) {
                    r.push(v);
                    proof {
                        assert forall|x: usize| #[trigger] r@.contains(x) <==> (r0.contains(x) || x == v) by {
                            if r@.contains(x) && x != v {
                                let j = choose|j: int| 0 <= j < r@.len() && r@[j] == x;
                                assert(r0[j] == x);
                            }
                            if r0.contains(x) {
                                let j = choose|j: int| 0 <= j < r0.len() && r0[j] == x;
                                assert(r@[j] == x);
                            }
                            if x == v {
                                assert(r@[r0.len() as int] == v);
                            }
                        }
                        assert forall|a: int, b: int| 0 <= a < b < r@.len() implies r@[a] != r@[b] by {
                            if b == r0.len() as int {
                                assert(r0.contains(r0[a]));
                            } else {
                                assert(r@[a] == r0[a] && r@[b] == r0[b]);
                            }
                        }
                    }
                }
                k = k + 1;
            }
            proof {
                assert(verts@.take(verts@.len() as int) =~= verts@);
                assert forall|v: usize| #[trigger] r@.contains(v) <==> exists|j: int| 0 <= j < i + 1 && corner_of(*g, region@, j, v) by {
                    if r@.contains(v) && !(exists|j: int| 0 <= j < i && corner_of(*g, region@, j, v)) {
                        assert(corner_of(*g, region@, i as int, v));
                    }
                    if exists|j: int| 0 <= j < i + 1 && corner_of(*g, region@, j, v) {
                        let j = choose|j: int| 0 <= j < i + 1 && corner_of(*g, region@, j, v);
                        if j == i {
                            assert(verts@.contains(v));
                        }
                    }
                }
            }
        } else {
            proof {
                assert forall|v: usize| #[trigger] r@.contains(v) <==> exists|j: int| 0 <= j < i + 1 && corner_of(*g, region@, j, v) by {
                    if exists|j: int| 0 <= j < i + 1 && corner_of(*g, region@, j, v) {
                        let j = choose|j: int| 0 <= j < i + 1 && corner_of(*g, region@, j, v);
                        assert(j != i);
                    }
                }
            }
        }
        i = i + 1;
    }
    r
}

/// `p` is a walk along joins.
pub open spec fn join_walk(g: GeometryData, p: Seq<usize>) -> bool {
    &&& p.len() >= 1
    &&& forall|k: int| 0 <= k < p.len() - 1 ==> #[trigger] joins(g, p[k], p[k + 1])
}

proof fn lemma_raw_walk_stays(g: GeometryData, md: int, raw: Seq<Seq<usize>>, i: int, p: Seq<usize>)
    requires
        grown_regions(g, md, raw),
        0 <= i < raw.len(),
        join_walk(g, p),
        raw[i].contains(p[0]),
        forall|k: int| 0 <= k < p.len() ==> !in_regions(raw, i, #[trigger] p[k]),
    ensures
        raw[i].contains(p.last()),
    decreases p.len(),
{
    if p.len() > 1 {
        let q = p.drop_last();
        assert forall|k: int| 0 <= k < q.len() - 1 implies #[trigger] joins(g, q[k], q[k + 1]) by {
            assert(joins(g, p[k], p[k + 1]));
        }
        assert forall|k: int| 0 <= k < q.len() implies !in_regions(raw, i, #[trigger] q[k]) by {
            assert(!in_regions(raw, i, p[k]));
        }
        lemma_raw_walk_stays(g, md, raw, i, q);
        let k = p.len() - 2;
        assert(joins(g, p[k], p[k + 1]));
        let y = p.last();
        assert(raw[i].contains(p[k]));
        assert(in_regions(raw, i + 1, y));
        let j = choose|j: int| 0 <= j < i + 1 && #[trigger] raw[j].contains(y);
        if j < i {
            assert(!in_regions(raw, i, p[k + 1]));
            assert(in_regions(raw, i, y));
        }
    }
}

proof fn lemma_raw_member_reached(g: GeometryData, md: int, raw: Seq<Seq<usize>>, i: int, k: int) -> (p: Seq<usize>)
    requires
        grown_regions(g, md, raw),
        0 <= i < raw.len(),
        0 <= k < raw[i].len(),
    ensures
        join_walk(g, p),
        p[0] == raw[i][0],
        p.last() == raw[i][k],
        forall|m: int| 0 <= m < p.len() ==> raw[i].contains(#[trigger] p[m]),
    decreases k,
{
    if k == 0 {
        let p = seq![raw[i][0]];
        assert(raw[i].contains(raw[i][0]));
        p
    } else {
        let j = choose|j: int| 0 <= j < k && joins(g, raw[i][j], #[trigger] raw[i][k]);
        let q = lemma_raw_member_reached(g, md, raw, i, j);
        let p = q.push(raw[i][k]);
        assert forall|m: int| 0 <= m < p.len() - 1 implies #[trigger] joins(g, p[m], p[m + 1]) by {
            if m < q.len() - 1 {
                assert(joins(g, q[m], q[m + 1]));
            }
        }
        assert forall|m: int| 0 <= m < p.len() implies raw[i].contains(#[trigger] p[m]) by {
            if m < q.len() {
                assert(p[m] == q[m]);
            } else {
                assert(raw[i][k] == p[m]);
            }
        }
        p
    }
}

proof fn lemma_in_regions_agree(raw1: Seq<Seq<usize>>, raw2: Seq<Seq<usize>>, i: int)
    requires
        i <= raw1.len(),
        i <= raw2.len(),
        forall|j: int, y: usize| 0 <= j < i ==> (#[trigger] raw1[j].contains(y) <==> raw2[j].contains(y)),
    ensures
        forall|y: usize| #[trigger] in_regions(raw1, i, y) <==> in_regions(raw2, i, y),
{
    assert forall|y: usize| #[trigger] in_regions(raw1, i, y) <==> in_regions(raw2, i, y) by {
        if in_regions(raw1, i, y) {
            let j = choose|j: int| 0 <= j < i && #[trigger] raw1[j].contains(y);
            assert(raw2[j].contains(y));
        }
        if in_regions(raw2, i, y) {
            let j = choose|j: int| 0 <= j < i && #[trigger] raw2[j].contains(y);
            assert(raw1[j].contains(y));
        }
    }
}

proof fn lemma_region_included(
    g: GeometryData,
    md: int,
    raw1: Seq<Seq<usize>>,
    raw2: Seq<Seq<usize>>,
    c: int,
    y: usize,
)
    requires
        grown_regions(g, md, raw1),
        grown_regions(g, md, raw2),
        0 <= c < raw1.len(),
        c < raw2.len(),
        raw1[c][0] == raw2[c][0],
        forall|z: usize| #[trigger] in_regions(raw1, c, z) <==> in_regions(raw2, c, z),
        raw1[c].contains(y),
    ensures
        raw2[c].contains(y),
{
    let k = choose|k: int| 0 <= k < raw1[c].len() && raw1[c][k] == y;
    let p = lemma_raw_member_reached(g, md, raw1, c, k);
    assert forall|m: int| 0 <= m < p.len() implies !in_regions(raw2, c, #[trigger] p[m]) by {
        assert(raw1[c].contains(p[m]));
        if in_regions(raw1, c, p[m]) {
            let j = choose|j: int| 0 <= j < c && #[trigger] raw1[j].contains(p[m]);
            assert(raw1[j].contains(p[m]));
        }
    }
    assert(raw2[c].contains(raw2[c][0]));
    lemma_raw_walk_stays(g, md, raw2, c, p);
}

proof fn lemma_seeds_agree(g: GeometryData, md: int, raw1: Seq<Seq<usize>>, raw2: Seq<Seq<usize>>, c: int)
    requires
        grown_regions(g, md, raw1),
        grown_regions(g, md, raw2),
        0 <= c < raw1.len(),
        c < raw2.len(),
        forall|z: usize| #[trigger] in_regions(raw1, c, z) <==> in_regions(raw2, c, z),
    ensures
        raw1[c][0] == raw2[c][0],
{
    let s1 = raw1[c][0];
    let s2 = raw2[c][0];
    assert(raw1[c].contains(s1));
    assert(raw2[c].contains(s2));
    if s1 != s2 {
        if seeds_before(g, s1, s2) {
            assert(in_regions(raw2, c, s1));
            assert(in_regions(raw1, c, s1));
            let j = choose|j: int| 0 <= j < c && #[trigger] raw1[j].contains(s1);
            assert(raw1[j].contains(s1));
        } else {
            assert(seeds_before(g, s2, s1));
            assert(in_regions(raw1, c, s2));
            assert(in_regions(raw2, c, s2));
            let j = choose|j: int| 0 <= j < c && #[trigger] raw2[j].contains(s2);
            assert(raw2[j].contains(s2));
        }
    }
}

proof fn lemma_raw_prefix_agrees(g: GeometryData, md: int, raw1: Seq<Seq<usize>>, raw2: Seq<Seq<usize>>, i: int)
    requires
        grown_regions(g, md, raw1),
        grown_regions(g, md, raw2),
        0 <= i <= raw1.len(),
        i <= raw2.len(),
    ensures
        forall|j: int, y: usize| 0 <= j < i ==> (#[trigger] raw1[j].contains(y) <==> raw2[j].contains(y)),
    decreases i,
{
    if i > 0 {
        let c = i - 1;
        lemma_raw_prefix_agrees(g, md, raw1, raw2, c);
        lemma_in_regions_agree(raw1, raw2, c);
        lemma_in_regions_agree(raw2, raw1, c);
        lemma_seeds_agree(g, md, raw1, raw2, c);
        assert forall|y: usize| #[trigger] raw1[c].contains(y) implies raw2[c].contains(y) by {
            lemma_region_included(g, md, raw1, raw2, c, y);
        }
        assert forall|y: usize| #[trigger] raw2[c].contains(y) implies raw1[c].contains(y) by {
            lemma_region_included(g, md, raw2, raw1, c, y);
        }
    }
}

proof fn lemma_raw_not_longer(g: GeometryData, md: int, raw1: Seq<Seq<usize>>, raw2: Seq<Seq<usize>>, m: int)
    requires
        grown_regions(g, md, raw1),
        grown_regions(g, md, raw2),
        m == raw2.len(),
        m <= raw1.len(),
        forall|j: int, y: usize| 0 <= j < m ==> (#[trigger] raw1[j].contains(y) <==> raw2[j].contains(y)),
    ensures
        raw1.len() == m,
{
    if raw1.len() > m {
        let s = raw1[m][0];
        assert(raw1[m].contains(s));
        assert(candidate(g, s, md));
        assert(in_regions(raw2, m, s));
        lemma_in_regions_agree(raw1, raw2, m);
        assert(in_regions(raw1, m, s));
        let j = choose|j: int| 0 <= j < m && #[trigger] raw1[j].contains(s);
        assert(raw1[j].contains(s));
    }
}

proof fn lemma_kept_agree(
    g: GeometryData,
    min_count: int,
    min_double_area: int,
    md: int,
    raw1: Seq<Seq<usize>>,
    raw2: Seq<Seq<usize>>,
)
    requires
        raw1.len() == raw2.len(),
        forall|j: int| 0 <= j < raw1.len() ==> (#[trigger] raw1[j]).no_duplicates(),
        forall|j: int| 0 <= j < raw2.len() ==> (#[trigger] raw2[j]).no_duplicates(),
        forall|j: int, y: usize| 0 <= j < raw1.len() ==> (#[trigger] raw1[j].contains(y) <==> raw2[j].contains(y)),
    ensures
        kept(g, min_count, min_double_area, raw1).len() == kept(g, min_count, min_double_area, raw2).len(),
        forall|i: int, y: usize|
            0 <= i < kept(g, min_count, min_double_area, raw1).len() ==> (#[trigger] kept(g, min_count, min_double_area, raw1)[i].contains(y)
                <==> kept(g, min_count, min_double_area, raw2)[i].contains(y)),
    decreases raw1.len(),
{
    if raw1.len() > 0 {
        let l = raw1.len() - 1;
        lemma_kept_agree(g, min_count, min_double_area, md, raw1.drop_last(), raw2.drop_last());
        assert forall|y: usize| #[trigger] raw1[l].contains(y) <==> raw2[l].contains(y) by {}
        lemma_same_members(g, raw1[l], raw2[l]);
        let k1 = kept(g, min_count, min_double_area, raw1);
        let k2 = kept(g, min_count, min_double_area, raw2);
        let p1 = kept(g, min_count, min_double_area, raw1.drop_last());
        let p2 = kept(g, min_count, min_double_area, raw2.drop_last());
        assert forall|i: int, y: usize| 0 <= i < k1.len() implies (#[trigger] k1[i].contains(y) <==> k2[i].contains(y)) by {
            if i < p1.len() {
                assert(k1[i] == p1[i]);
                assert(k2[i] == p2[i]);
                assert(p1[i].contains(y) <==> p2[i].contains(y));
            } else {
                assert(k1[i] == raw1[l]);
                assert(k2[i] == raw2[l]);
            }
        }
    }
}

/// Law: DELFIN's result is determined by the graph and the thresholds: any
/// two results hold the same regions, in the same order, each with the same
/// triangles. Running it twice gives the same regions.
pub proof fn lemma_delfin_deterministic(
    g: GeometryData,
    min_count: int,
    min_double_area: int,
    min_dist_sq: int,
    r1: Seq<Vec<usize>>,
    r2: Seq<Vec<usize>>,
)
    requires
        delfin_result(g, min_count, min_double_area, min_dist_sq, r1),
        delfin_result(g, min_count, min_double_area, min_dist_sq, r2),
    ensures
        r1.len() == r2.len(),
        forall|i: int, y: usize| 0 <= i < r1.len() ==> (#[trigger] r1[i]@.contains(y) <==> r2[i]@.contains(y)),
{
    let raw1 = choose|raw: Seq<Seq<usize>>|
        grown_regions(g, min_dist_sq, raw) && #[trigger] kept(g, min_count, min_double_area, raw) == views(r1);
    let raw2 = choose|raw: Seq<Seq<usize>>|
        grown_regions(g, min_dist_sq, raw) && #[trigger] kept(g, min_count, min_double_area, raw) == views(r2);
    let m = if raw1.len() < raw2.len() { raw1.len() as int } else { raw2.len() as int };
    lemma_raw_prefix_agrees(g, min_dist_sq, raw1, raw2, m);
    if raw2.len() == m {
        lemma_raw_not_longer(g, min_dist_sq, raw1, raw2, m);
    } else {
        lemma_raw_not_longer(g, min_dist_sq, raw2, raw1, m);
    }
    lemma_kept_agree(g, min_count, min_double_area, min_dist_sq, raw1, raw2);
    assert forall|i: int, y: usize| 0 <= i < r1.len() implies (#[trigger] r1[i]@.contains(y) <==> r2[i]@.contains(y)) by {
        assert(views(r1)[i] == r1[i]@);
        assert(views(r2)[i] == r2[i]@);
        assert(kept(g, min_count, min_double_area, raw1)[i].contains(y) <==> kept(g, min_count, min_double_area, raw2)[i].contains(y));
    }
}

} // verus!

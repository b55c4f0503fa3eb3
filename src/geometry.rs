//! Points, edges and the per-triangle measures: squared edge lengths, doubled
//! area and the terminal (longest) edge.
use vstd::prelude::*;

verus! {

/// A point of the plane on the integer grid.
#[derive(Debug, Clone, Copy, PartialEq, Eq, Structural)]
pub struct Point {
    pub x: i32,
    pub y: i32,
}

/// The squared Euclidean distance between two points.
pub open spec fn dist_sq(p: Point, q: Point) -> int {
    (q.x - p.x) * (q.x - p.x) + (q.y - p.y) * (q.y - p.y)
}

/// Twice the area of the triangle `a b c`, by the shoelace formula.
pub open spec fn double_area(a: Point, b: Point, c: Point) -> int {
    let s = a.x * (b.y - c.y) + b.x * (c.y - a.y) + c.x * (a.y - b.y);
    if s < 0 {
        -s
    } else {
        s
    }
}

impl Point {
    pub fn new(x: i32, y: i32) -> (r: Point)
        ensures
            r.x == x,
            r.y == y,
    {
        Point { x, y }
    }

    /// The squared distance to `other`.
    pub fn squared_distance(&self, other: &Point) -> (r: u128)
        ensures
            r == dist_sq(*self, *other),
    {
        let dx: i128 = other.x as i128 - self.x as i128;
        let dy: i128 = other.y as i128 - self.y as i128;
        assert(0 <= dx * dx <= 0x1_0000_0000_0000_0000) by (nonlinear_arith)
            requires
                -0x1_0000_0000 <= dx <= 0x1_0000_0000,
        ;
        assert(0 <= dy * dy <= 0x1_0000_0000_0000_0000) by (nonlinear_arith)
            requires
                -0x1_0000_0000 <= dy <= 0x1_0000_0000,
        ;
        (dx * dx + dy * dy) as u128
    }
}

proof fn lemma_small_product(u: int, v: int)
    requires
        -0x8000_0000 <= u <= 0x8000_0000,
        -0x1_0000_0000 <= v <= 0x1_0000_0000,
    ensures
        -0x80_0000_0000_0000_0000 <= u * v <= 0x80_0000_0000_0000_0000,
{
    assert(-0x80_0000_0000_0000_0000 <= u * v <= 0x80_0000_0000_0000_0000) by (nonlinear_arith)
        requires
            -0x8000_0000 <= u <= 0x8000_0000,
            -0x1_0000_0000 <= v <= 0x1_0000_0000,
    ;
}

/// Twice the area of the triangle `a b c`.
pub fn triangle_double_area(a: &Point, b: &Point, c: &Point) -> (r: u128)
    ensures
        r == double_area(*a, *b, *c),
{
    let (ax, ay): (i128, i128) = (a.x as i128, a.y as i128);
    let (bx, by): (i128, i128) = (b.x as i128, b.y as i128);
    let (cx, cy): (i128, i128) = (c.x as i128, c.y as i128);
    proof {
        lemma_small_product(ax as int, by - cy);
        lemma_small_product(bx as int, cy - ay);
        lemma_small_product(cx as int, ay - by);
    }
    let t1: i128 = ax * (by - cy);
    let t2: i128 = bx * (cy - ay);
    let t3: i128 = cx * (ay - by);
    let s: i128 = t1 + t2 + t3;
    if s < 0 {
        (-s) as u128
    } else {
        s as u128
    }
}

/// An undirected edge between two vertex indices, kept as `(min, max)` so
/// that both directions of travel name the same edge.
#[derive(Debug, Clone, Copy, PartialEq, Eq, Hash, Structural)]
pub struct Edge(pub usize, pub usize);

/// The canonical edge joining `a` and `b`.
pub open spec fn canon(a: usize, b: usize) -> Edge {
    if a <= b {
        Edge(a, b)
    } else {
        Edge(b, a)
    }
}

impl Edge {
    /// The edge joining `a` and `b`, in canonical order.
    pub fn new(a: usize, b: usize) -> (r: Edge)
        ensures
            r == canon(a, b),
    {
        if a <= b {
            Edge(a, b)
        } else {
            Edge(b, a)
        }
    }

    /// The smaller endpoint.
    pub fn low(&self) -> (r: usize)
        ensures
            r == self.0,
    {
        self.0
    }

    /// The larger endpoint.
    pub fn high(&self) -> (r: usize)
        ensures
            r == self.1,
    {
        self.1
    }
}

/// Which of three edges is the terminal one: the first whose length is the
/// largest, in the order given.
pub open spec fn terminal_slot(l0: int, l1: int, l2: int) -> int {
    if l0 >= l1 && l0 >= l2 {
        0
    } else if l1 >= l2 {
        1
    } else {
        2
    }
}

/// The position of the terminal edge among three edges of the given lengths.
pub fn pick_terminal(l0: u128, l1: u128, l2: u128) -> (r: usize)
    ensures
        r == terminal_slot(l0 as int, l1 as int, l2 as int),
        r < 3,
{
    if l0 >= l1 && l0 >= l2 {
        0
    } else if l1 >= l2 {
        1
    } else {
        2
    }
}

/// The three values `a`, `b`, `c` in ascending order.
pub open spec fn sorted3(a: usize, b: usize, c: usize) -> Seq<usize> {
    if a <= b {
        if b <= c {
            seq![a, b, c]
        } else if a <= c {
            seq![a, c, b]
        } else {
            seq![c, a, b]
        }
    } else {
        if a <= c {
            seq![b, a, c]
        } else if b <= c {
            seq![b, c, a]
        } else {
            seq![c, b, a]
        }
    }
}

/// Sorts three vertex indices into a new vector.
pub fn sort_three(a: usize, b: usize, c: usize) -> (r: Vec<usize>)
    ensures
        r@ == sorted3(a, b, c),
{
    if a <= b {
        if b <= c {
            vec![a, b, c]
        } else if a <= c {
            vec![a, c, b]
        } else {
            vec![c, a, b]
        }
    } else {
        if a <= c {
            vec![b, a, c]
        } else if b <= c {
            vec![b, c, a]
        } else {
            vec![c, b, a]
        }
    }
}

/// The edges of a closed polygon through `v`, each vertex joined to the
/// next and the last to the first; none for fewer than three vertices.
pub open spec fn cycle_edges(v: Seq<usize>) -> Seq<Edge> {
    if v.len() >= 3 {
        Seq::new(v.len(), |i: int| canon(v[i], v[(i + 1) % (v.len() as int)]))
    } else {
        Seq::empty()
    }
}

/// What is known of one triangle of the derived graph.
#[derive(Debug)]
pub struct TriangleData {
    pub index: usize,
    /// Twice the triangle's area, where the build computed it.
    pub double_area: Option<u128>,
    /// The longest edge, the first of them where lengths tie.
    pub terminal_edge: Option<Edge>,
    /// The three vertex indices in ascending order.
    pub vertices: Vec<usize>,
}

impl TriangleData {
    /// A record that holds nothing yet.
    pub fn empty() -> (r: TriangleData)
        ensures
            r.index == 0,
            r.double_area is None,
            r.terminal_edge is None,
            r.vertices@.len() == 0,
    {
        TriangleData { index: 0, double_area: None, terminal_edge: None, vertices: Vec::new() }
    }

    /// A copy of this record.
    pub fn duplicate(&self) -> (r: TriangleData)
        ensures
            r.index == self.index,
            r.double_area == self.double_area,
            r.terminal_edge == self.terminal_edge,
            r.vertices@ == self.vertices@,
    {
        TriangleData {
            index: self.index,
            double_area: self.double_area,
            terminal_edge: self.terminal_edge,
            vertices: self.vertices.clone(),
        }
    }

    /// The edges of the triangle, each vertex joined to the next.
    pub fn get_edges(&self) -> (r: Vec<Edge>)
        ensures
            r@ == cycle_edges(self.vertices@),
    {
        let mut edges: Vec<Edge> = Vec::new();
        let n = self.vertices.len();
        if n >= 3 {
            let mut i: usize = 0;
            while i < n
                invariant
                    n == self.vertices@.len(),
                    n >= 3,
                    i <= n,
                    edges@ =~= cycle_edges(self.vertices@).subrange(0, i as int),
                decreases n - i,
            {
                let v1 = self.vertices[i];
                let v2 = if i + 1 < n {
                    self.vertices[i + 1]
                } else {
                    self.vertices[0]
                };
                proof {
                    if i + 1 < n {
                        assert((i + 1) % (n as int) == i + 1) by (nonlinear_arith)
                            requires
                                0 <= i + 1 < n,
                        ;
                    } else {
                        assert((i + 1) % (n as int) == 0) by (nonlinear_arith)
                            requires
                                i + 1 == n,
                                n > 0,
                        ;
                    }
                }
                edges.push(Edge::new(v1, v2));
                i = i + 1;
            }
        }
        assert(edges@ =~= cycle_edges(self.vertices@));
        edges
    }
}

} // verus!

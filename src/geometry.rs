use vstd::prelude::*;

use crate::error::{Error, ErrorKind};

verus! {

/// A point of the plane with integer coordinates.
#[derive(Clone, Copy, Debug, PartialEq, Eq, Structural)]
pub struct Vertex {
    pub x: i32,
    pub y: i32,
}

/// The squared Euclidean distance between two points.
pub open spec fn dist2(a: Vertex, b: Vertex) -> int {
    (a.x - b.x) * (a.x - b.x) + (a.y - b.y) * (a.y - b.y)
}

/// The squared distance does not depend on the order of the points.
pub proof fn lemma_dist2_symmetric(a: Vertex, b: Vertex)
    ensures
        dist2(a, b) == dist2(b, a),
{
    assert((a.x - b.x) * (a.x - b.x) == (b.x - a.x) * (b.x - a.x)) by (nonlinear_arith);
    assert((a.y - b.y) * (a.y - b.y) == (b.y - a.y) * (b.y - a.y)) by (nonlinear_arith);
}

/// The distance between two coordinates, as an unsigned number.
fn coord_gap(a: i32, b: i32) -> (r: u64)
    ensures
        r as int == if a >= b { a - b } else { b - a },
        r < 0x1_0000_0000,
{
    if a >= b {
        (a as i64 - b as i64) as u64
    } else {
        (b as i64 - a as i64) as u64
    }
}

impl Vertex {
    pub fn new(x: i32, y: i32) -> (r: Self)
        ensures
            r.x == x,
            r.y == y,
    {
        Vertex { x, y }
    }

    /// The squared Euclidean distance to `v`, computed exactly.
    pub fn distance_squared(&self, v: &Vertex) -> (r: u128)
        ensures
            r as int == dist2(*self, *v),
            r < 0x4_0000_0000_0000_0000,
    {
        let dx = coord_gap(self.x, v.x) as u128;
        let dy = coord_gap(self.y, v.y) as u128;
        assert(dx * dx < 0x1_0000_0000_0000_0000) by (nonlinear_arith)
            requires dx < 0x1_0000_0000;
        assert(dy * dy < 0x1_0000_0000_0000_0000) by (nonlinear_arith)
            requires dy < 0x1_0000_0000;
        assert((self.x - v.x) * (self.x - v.x) == dx * dx) by (nonlinear_arith)
            requires dx == self.x - v.x || dx == v.x - self.x;
        assert((self.y - v.y) * (self.y - v.y) == dy * dy) by (nonlinear_arith)
            requires dy == self.y - v.y || dy == v.y - self.y;
        dx * dx + dy * dy
    }
}

/// An edge between two points, with its squared length kept beside it.
/// The constructors of this library keep `length_squared` equal to the
/// squared distance between `u` and `v` (see `wf`).
#[derive(Clone, Copy, Debug, PartialEq, Eq, Structural)]
pub struct Edge {
    pub u: Vertex,
    pub v: Vertex,
    pub length_squared: u128,
}

impl Edge {
    /// The kept length is the squared distance between the endpoints.
    pub open spec fn wf(&self) -> bool {
        self.length_squared as int == dist2(self.u, self.v)
    }

    /// An edge that keeps its length is determined by its endpoints.
    pub proof fn lemma_determined(e1: Edge, e2: Edge)
        requires
            e1.wf(),
            e2.wf(),
            e1.u == e2.u,
            e1.v == e2.v,
        ensures
            e1 == e2,
    {
    }

    /// An edge whose squared length is already known.
    pub(crate) fn joining(u: Vertex, v: Vertex, length_squared: u128) -> (r: Edge)
        requires
            length_squared as int == dist2(u, v),
        ensures
            r.u == u,
            r.v == v,
            r.wf(),
    {
        Edge { u, v, length_squared }
    }

    /// The edge between two points, which must not coincide.
    pub fn from_vertices(u: Vertex, v: Vertex) -> (r: Result<Edge, Error>)
        ensures
            u == v <==> r.is_err(),
            r matches Err(e) ==> e.kind == ErrorKind::DegenerateEdge,
            r matches Ok(e) ==> e.u == u && e.v == v && e.wf(),
    {
        if u.x == v.x && u.y == v.y {
            Err(Error::new(ErrorKind::DegenerateEdge))
        } else {
            let length_squared = u.distance_squared(&v);
            Ok(Edge { u, v, length_squared })
        }
    }

    /// The edge from `(x0, y0)` to `(x1, y1)`, which must not coincide.
    pub fn new(x0: i32, y0: i32, x1: i32, y1: i32) -> (r: Result<Edge, Error>)
        ensures
            (x0 == x1 && y0 == y1) <==> r.is_err(),
            r matches Err(e) ==> e.kind == ErrorKind::DegenerateEdge,
            r matches Ok(e) ==> e.u.x == x0 && e.u.y == y0 && e.v.x == x1 && e.v.y == y1 && e.wf(),
    {
        Edge::from_vertices(Vertex::new(x0, y0), Vertex::new(x1, y1))
    }

    /// The squared length of the edge.
    pub fn length_squared(&self) -> (r: u128)
        requires
            self.wf(),
        ensures
            r as int == dist2(self.u, self.v),
    {
        self.length_squared
    }
}

} // verus!

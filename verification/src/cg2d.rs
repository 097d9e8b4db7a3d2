//! Point-in-polygon tests in the plane for triangles and quadrangles.

use vstd::prelude::*;

verus! {

/// A point in the plane.
#[derive(Clone, Copy, Debug, PartialEq, Eq, Structural)]
pub struct Point2 {
    pub x: i32,
    pub y: i32,
}

impl Point2 {
    pub fn new(x: i32, y: i32) -> (p: Point2)
        ensures
            p == (Point2 { x, y }),
    {
        Point2 { x, y }
    }
}

/// Where a point lies with respect to a polygon.
#[derive(Clone, Copy, Debug, PartialEq, Eq, Structural)]
pub enum InnOuter {
    Inner,
    Outer,
    Boundary,
}

/// The cross product of the vectors from `a` to `p` and from `b` to `p`. It
/// is 0 exactly if `p`, `a` and `b` are on one line, and its sign tells on
/// which side of the line through `a` and `b` the point `p` lies.
pub open spec fn turn(p: Point2, a: Point2, b: Point2) -> int {
    (p.x - a.x) * (p.y - b.y) - (p.y - a.y) * (p.x - b.x)
}

/// What one more edge tells: the point is on the boundary if the turn at
/// the edge is 0, outside if it has the other sign than the first turn, and
/// else as the rest of the edges tell.
pub open spec fn edge_verdict(first: int, turn: int, rest: InnOuter) -> InnOuter {
    if turn == 0 {
        InnOuter::Boundary
    } else if (turn > 0) != (first > 0) {
        InnOuter::Outer
    } else {
        rest
    }
}

/// Where `p` lies with respect to the triangle `a b c`, whose corners are
/// given in clockwise or in counter-clockwise order: inside if the turns at
/// all three edges have one sign. The edges are looked at in order, and the
/// first that tells decides.
pub open spec fn tri_verdict(p: Point2, a: Point2, b: Point2, c: Point2) -> InnOuter {
    let first = turn(p, a, b);
    if first == 0 {
        InnOuter::Boundary
    } else {
        edge_verdict(first, turn(p, b, c), edge_verdict(first, turn(p, c, a), InnOuter::Inner))
    }
}

/// Where `p` lies with respect to the quadrangle `a b c d`, whose corners
/// are given in clockwise or in counter-clockwise order: inside if the turns
/// at all four edges have one sign. The edges are looked at in order, and the
/// first that tells decides.
pub open spec fn quad_verdict(p: Point2, a: Point2, b: Point2, c: Point2, d: Point2) -> InnOuter {
    let first = turn(p, a, b);
    if first == 0 {
        InnOuter::Boundary
    } else {
        edge_verdict(
            first,
            turn(p, b, c),
            edge_verdict(
                first,
                turn(p, c, d),
                edge_verdict(first, turn(p, d, a), InnOuter::Inner),
            ),
        )
    }
}

fn cross(p: &Point2, a: &Point2, b: &Point2) -> (r: i128)
    ensures
        r == turn(*p, *a, *b),
{
    let ax = p.x as i64 - a.x as i64;
    let ay = p.y as i64 - a.y as i64;
    let bx = p.x as i64 - b.x as i64;
    let by = p.y as i64 - b.y as i64;
    assert(-0x1_0000_0000_0000_0000 <= ax * by <= 0x1_0000_0000_0000_0000) by (nonlinear_arith)
        requires
            -0x1_0000_0000 <= ax <= 0x1_0000_0000,
            -0x1_0000_0000 <= by <= 0x1_0000_0000,
    ;
    assert(-0x1_0000_0000_0000_0000 <= ay * bx <= 0x1_0000_0000_0000_0000) by (nonlinear_arith)
        requires
            -0x1_0000_0000 <= ay <= 0x1_0000_0000,
            -0x1_0000_0000 <= bx <= 0x1_0000_0000,
    ;
    (ax as i128) * (by as i128) - (ay as i128) * (bx as i128)
}

/// Whether `p` lies in the triangle `a b c`, whose corners are given in
/// clockwise or in counter-clockwise order.
pub fn include_tri2(p: &Point2, a: &Point2, b: &Point2, c: &Point2) -> (r: InnOuter)
    ensures
        r == tri_verdict(*p, *a, *b, *c),
{
    let r = cross(p, a, b);
    if r > 0 {
        let r = cross(p, b, c);
        if r > 0 {
        } else if r < 0 {
            return InnOuter::Outer;
        } else {
            return InnOuter::Boundary;
        }
        let r = cross(p, c, a);
        if r > 0 {
            InnOuter::Inner
        } else if r < 0 {
            InnOuter::Outer
        } else {
            InnOuter::Boundary
        }
    } else if r < 0 {
        let r = cross(p, b, c);
        if r < 0 {
        } else if r > 0 {
            return InnOuter::Outer;
        } else {
            return InnOuter::Boundary;
        }
        let r = cross(p, c, a);
        if r < 0 {
            InnOuter::Inner
        } else if r > 0 {
            InnOuter::Outer
        } else {
            InnOuter::Boundary
        }
    } else {
        InnOuter::Boundary
    }
}

/// Whether `p` lies in the quadrangle `a b c d`, whose corners are given
/// in clockwise or in counter-clockwise order.
pub fn include_quad2(p: &Point2, a: &Point2, b: &Point2, c: &Point2, d: &Point2) -> (r:
    InnOuter)
    ensures
        r == quad_verdict(*p, *a, *b, *c, *d),
{
    let r = cross(p, a, b);
    if r > 0 {
        let r = cross(p, b, c);
        if r > 0 {
        } else if r < 0 {
            return InnOuter::Outer;
        } else {
            return InnOuter::Boundary;
        }
        let r = cross(p, c, d);
        if r > 0 {
        } else if r < 0 {
            return InnOuter::Outer;
        } else {
            return InnOuter::Boundary;
        }
        let r = cross(p, d, a);
        if r > 0 {
            InnOuter::Inner
        } else if r < 0 {
            InnOuter::Outer
        } else {
            InnOuter::Boundary
        }
    } else if r < 0 {
        let r = cross(p, b, c);
        if r < 0 {
        } else if r > 0 {
            return InnOuter::Outer;
        } else {
            return InnOuter::Boundary;
        }
        let r = cross(p, c, d);
        if r < 0 {
        } else if r > 0 {
            return InnOuter::Outer;
        } else {
            return InnOuter::Boundary;
        }
        let r = cross(p, d, a);
        if r < 0 {
            InnOuter::Inner
        } else if r > 0 {
            InnOuter::Outer
        } else {
            InnOuter::Boundary
        }
    } else {
        InnOuter::Boundary
    }
}

} // verus!

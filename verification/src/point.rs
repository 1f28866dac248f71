use vstd::prelude::*;

verus! {

/// A position on the drawing plane, in whole grid units.
///
/// Two points are equal exactly when both coordinates are equal.
#[derive(Clone, Copy, Debug, PartialEq, Eq, Hash, Structural)]
pub struct Point {
    pub x: i32,
    pub y: i32,
}

impl Point {
    /// The square of the Euclidean distance between two points.
    pub open spec fn dist2(self, other: Point) -> int {
        (self.x - other.x) * (self.x - other.x) + (self.y - other.y) * (self.y - other.y)
    }

    pub fn new(x: i32, y: i32) -> (p: Point)
        ensures
            p.x == x,
            p.y == y,
    {
        Point { x, y }
    }

    /// Where the pen rests before the first stroke.
    pub fn origin() -> (p: Point)
        ensures
            p.x == 0,
            p.y == 0,
    {
        Point { x: 0, y: 0 }
    }

    /// Squared distance to `other`, exact for every pair of points.
    pub fn distance_squared(&self, other: &Point) -> (d: u128)
        ensures
            d == self.dist2(*other),
    {
        let dx: i128 = self.x as i128 - other.x as i128;
        let dy: i128 = self.y as i128 - other.y as i128;
        assert(0 <= dx * dx <= 0x1_0000_0000 * 0x1_0000_0000) by (nonlinear_arith)
            requires
                -0x1_0000_0000 <= dx <= 0x1_0000_0000,
        ;
        assert(0 <= dy * dy <= 0x1_0000_0000 * 0x1_0000_0000) by (nonlinear_arith)
            requires
                -0x1_0000_0000 <= dy <= 0x1_0000_0000,
        ;
        let sx: i128 = dx * dx;
        let sy: i128 = dy * dy;
        (sx + sy) as u128
    }
}

/// Distance is symmetric and vanishes exactly between equal points.
pub proof fn lemma_dist2_metric(a: Point, b: Point)
    ensures
        a.dist2(b) == b.dist2(a),
        a.dist2(b) >= 0,
        a.dist2(b) == 0 <==> a == b,
{
    let dx = a.x - b.x;
    let dy = a.y - b.y;
    assert(dx * dx == (b.x - a.x) * (b.x - a.x)) by (nonlinear_arith)
        requires
            dx == a.x - b.x,
    ;
    assert(dy * dy == (b.y - a.y) * (b.y - a.y)) by (nonlinear_arith)
        requires
            dy == a.y - b.y,
    ;
    assert(dx * dx >= 0 && (dx * dx == 0 <==> dx == 0)) by (nonlinear_arith);
    assert(dy * dy >= 0 && (dy * dy == 0 <==> dy == 0)) by (nonlinear_arith);
}

} // verus!

use vstd::prelude::*;

verus! {

/// A point with integer coordinates.
#[derive(Debug, Clone, Copy, PartialEq, Eq, Structural)]
pub struct PlaintextCoordinate {
    pub x: i32,
    pub y: i32,
}

/// The two points whose distance is asked for.
#[derive(Debug, Clone, Copy, PartialEq, Eq, Structural)]
pub struct PlaintextCoordinatesSchema {
    pub coordinate_a: PlaintextCoordinate,
    pub coordinate_b: PlaintextCoordinate,
}

/// The squared Euclidean distance between two points.
pub open spec fn squared_distance(a: PlaintextCoordinate, b: PlaintextCoordinate) -> int {
    (a.x - b.x) * (a.x - b.x) + (a.y - b.y) * (a.y - b.y)
}

/// A squared distance is never negative.
pub proof fn lemma_squared_distance_non_negative(a: PlaintextCoordinate, b: PlaintextCoordinate)
    ensures
        squared_distance(a, b) >= 0,
{
    let dx = a.x - b.x;
    let dy = a.y - b.y;
    assert(dx * dx + dy * dy >= 0) by (nonlinear_arith);
}

impl PlaintextCoordinatesSchema {
    /// No coordinate is negative.
    pub open spec fn non_negative(&self) -> bool {
        &&& self.coordinate_a.x >= 0
        &&& self.coordinate_a.y >= 0
        &&& self.coordinate_b.x >= 0
        &&& self.coordinate_b.y >= 0
    }

    /// The squared distance between the two points; `None` where it does not
    /// fit in an `i32`.
    pub fn distance_squared(&self) -> (r: Option<i32>)
        ensures
            r == (if squared_distance(self.coordinate_a, self.coordinate_b) <= i32::MAX {
                Some(squared_distance(self.coordinate_a, self.coordinate_b) as i32)
            } else {
                None::<i32>
            }),
    {
        let a: PlaintextCoordinate = self.coordinate_a;
        let b: PlaintextCoordinate = self.coordinate_b;
        let x1: i64 = if a.x >= b.x { a.x as i64 } else { b.x as i64 };
        let x2: i64 = if a.x >= b.x { b.x as i64 } else { a.x as i64 };
        let y1: i64 = if a.y >= b.y { a.y as i64 } else { b.y as i64 };
        let y2: i64 = if a.y >= b.y { b.y as i64 } else { a.y as i64 };
        let dx: u64 = (x1 - x2) as u64;
        let dy: u64 = (y1 - y2) as u64;
        proof {
            assert(dx * dx <= 0xffff_ffff * 0xffff_ffff) by (nonlinear_arith)
                requires
                    0 <= dx <= 0xffff_ffff,
            ;
            assert(dy * dy <= 0xffff_ffff * 0xffff_ffff) by (nonlinear_arith)
                requires
                    0 <= dy <= 0xffff_ffff,
            ;
            assert(dx * dx == (a.x - b.x) * (a.x - b.x)) by (nonlinear_arith)
                requires
                    dx == a.x - b.x || dx == b.x - a.x,
            ;
            assert(dy * dy == (a.y - b.y) * (a.y - b.y)) by (nonlinear_arith)
                requires
                    dy == a.y - b.y || dy == b.y - a.y,
            ;
            assert(dx * dx >= 0 && dy * dy >= 0) by (nonlinear_arith);
        }
        let dxx: u64 = dx * dx;
        let dyy: u64 = dy * dy;
        if dxx > i32::MAX as u64 || dyy > i32::MAX as u64 {
            return None;
        }
        let sum: u64 = dxx + dyy;
        if sum > i32::MAX as u64 {
            None
        } else {
            Some(sum as i32)
        }
    }

    /// The squared distance between the two points, the radicand of their
    /// distance; `None` where a coordinate is negative or the square does not
    /// fit in an `i32`.
    pub fn radicand(&self) -> (r: Option<i32>)
        ensures
            r == (if self.non_negative() && squared_distance(self.coordinate_a, self.coordinate_b)
                <= i32::MAX {
                Some(squared_distance(self.coordinate_a, self.coordinate_b) as i32)
            } else {
                None::<i32>
            }),
    {
        let a: PlaintextCoordinate = self.coordinate_a;
        let b: PlaintextCoordinate = self.coordinate_b;
        if a.x < 0 || a.y < 0 || b.x < 0 || b.y < 0 {
            return None;
        }
        self.distance_squared()
    }
}

} // verus!

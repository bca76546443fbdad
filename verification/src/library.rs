//! Shared small utilities: integer points and distances.

use vstd::prelude::*;

verus! {

/// Coordinate bound for map locations; keeps squared distances inside `i64`.
pub const MAX_COORD: i32 = 1000000000;

/// An integer point in the map plane.
#[derive(Copy, Clone, PartialEq, Eq, Debug)]
pub struct Ipt {
    pub x: i32,
    pub y: i32,
}

/// Builds an integer point.
pub fn ipt(x: i32, y: i32) -> (r: Ipt)
    ensures
        r == (Ipt { x, y }),
{
    Ipt { x, y }
}

/// The squared euclidean distance between two integer points.
pub open spec fn spec_dist2(a: Ipt, b: Ipt) -> int {
    (a.x - b.x) * (a.x - b.x) + (a.y - b.y) * (a.y - b.y)
}

/// Returns the distance squared, in integer format.
pub fn dist2(a: &Ipt, b: &Ipt) -> (r: i64)
    requires
        -MAX_COORD <= a.x <= MAX_COORD,
        -MAX_COORD <= a.y <= MAX_COORD,
        -MAX_COORD <= b.x <= MAX_COORD,
        -MAX_COORD <= b.y <= MAX_COORD,
    ensures
        r == spec_dist2(*a, *b),
        0 <= r <= 8000000000000000000,
{
    let x: i64 = (a.x as i64) - (b.x as i64);
    let y: i64 = (a.y as i64) - (b.y as i64);
    proof {
        assert(0 <= x * x <= 4000000000000000000 && 0 <= y * y <= 4000000000000000000)
            by (nonlinear_arith)
            requires
                -2000000000 <= x <= 2000000000,
                -2000000000 <= y <= 2000000000,
        ;
    }
    x * x + y * y
}

} // verus!

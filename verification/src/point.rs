//! Grid points shared by the sketches.

use vstd::prelude::*;

verus! {

/// A point on the integer grid.
#[derive(Clone, Copy, Debug, PartialEq, Eq, Structural)]
pub struct Point {
    pub x: i32,
    pub y: i32,
}

/// Builds the point `(x, y)`.
pub fn pt2(x: i32, y: i32) -> (p: Point)
    ensures
        p == (Point { x, y }),
{
    Point { x, y }
}

} // verus!

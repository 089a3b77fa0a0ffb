//! Points and sizes on the character grid.
use vstd::prelude::*;

verus! {

/// A size on the grid: `x` columns and `y` rows.
#[derive(Clone, Copy, Debug, PartialEq, Eq, Structural)]
pub struct Rect {
    pub x: u32,
    pub y: u32,
}

/// A position on the grid: column `x` of row `y`.
#[derive(Clone, Copy, Debug, PartialEq, Eq, Structural)]
pub struct Point2 {
    pub x: u32,
    pub y: u32,
}

/// A size of `x` columns and `y` rows.
pub fn new_rect(x: u32, y: u32) -> (r: Rect)
    ensures
        r == (Rect { x, y }),
{
    Rect { x, y }
}

} // verus!

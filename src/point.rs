use vstd::prelude::*;

verus! {

/// A cell coordinate: `x` is the column, `y` the row.
#[derive(Debug, Clone, Copy, PartialEq, Eq, Structural, Hash)]
pub struct Point {
    pub x: usize,
    pub y: usize,
}

impl Point {
    pub fn new(x: usize, y: usize) -> (r: Point)
        ensures
            r.x == x,
            r.y == y,
    {
        Point { x, y }
    }

    /// The coordinate as a pair of mathematical integers.
    pub open spec fn pos(self) -> (int, int) {
        (self.x as int, self.y as int)
    }
}

} // verus!

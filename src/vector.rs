//! Plain two-component vectors used for coordinates and sizes.
use vstd::prelude::*;

verus! {

/// A signed 2d vector: a coordinate or an offset.
#[derive(Clone, Copy, Debug, PartialEq, Eq, Hash, Structural)]
pub struct IVec2 {
    pub x: isize,
    pub y: isize,
}

/// An unsigned 2d vector: a size or an offset inside a buffer.
#[derive(Clone, Copy, Debug, PartialEq, Eq, Hash, Structural)]
pub struct UVec2 {
    pub x: usize,
    pub y: usize,
}

impl IVec2 {
    pub fn new(x: isize, y: isize) -> (r: IVec2)
        ensures
            r.x == x,
            r.y == y,
    {
        IVec2 { x, y }
    }
}

impl UVec2 {
    pub fn new(x: usize, y: usize) -> (r: UVec2)
        ensures
            r.x == x,
            r.y == y,
    {
        UVec2 { x, y }
    }
}

} // verus!

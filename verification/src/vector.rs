//! Small integer vectors: pixel positions and screen points.
use vstd::prelude::*;

verus! {

/// A point of the plane with whole coordinates of any size: what the
/// positions and screen points below stand for in contracts.
pub struct Point {
    pub x: int,
    pub y: int,
}

impl Point {
    /// The point with its two coordinates exchanged.
    pub open spec fn transposed(self) -> Point {
        Point { x: self.y, y: self.x }
    }
}

/// A position on the pixel grid, or the size of a grid.
#[derive(Clone, Copy, Debug, PartialEq, Eq, Structural)]
pub struct UVec2 {
    pub x: u32,
    pub y: u32,
}

/// A screen point without depth, in pixel units.
#[derive(Clone, Copy, Debug, PartialEq, Eq, Structural)]
pub struct IVec2 {
    pub x: i32,
    pub y: i32,
}

/// A screen point with a depth. The depth is only ever compared: a larger
/// `z` is nearer to the viewer.
#[derive(Clone, Copy, Debug, PartialEq, Eq, Structural)]
pub struct IVec3 {
    pub x: i32,
    pub y: i32,
    pub z: i32,
}

impl View for UVec2 {
    type V = Point;

    open spec fn view(&self) -> Point {
        Point { x: self.x as int, y: self.y as int }
    }
}

impl View for IVec2 {
    type V = Point;

    open spec fn view(&self) -> Point {
        Point { x: self.x as int, y: self.y as int }
    }
}

impl UVec2 {
    /// A position from its column and its height.
    pub fn new(x: u32, y: u32) -> (v: UVec2)
        ensures
            v == (UVec2 { x, y }),
    {
        UVec2 { x, y }
    }
}

impl IVec2 {
    /// A screen point from its two coordinates.
    pub fn new(x: i32, y: i32) -> (v: IVec2)
        ensures
            v == (IVec2 { x, y }),
    {
        IVec2 { x, y }
    }

    /// The point with its two coordinates exchanged.
    pub fn transpose(self) -> (v: IVec2)
        ensures
            v@ == self@.transposed(),
    {
        IVec2 { x: self.y, y: self.x }
    }
}

impl IVec3 {
    /// A screen point from its two coordinates and its depth.
    pub fn new(x: i32, y: i32, z: i32) -> (v: IVec3)
        ensures
            v == (IVec3 { x, y, z }),
    {
        IVec3 { x, y, z }
    }

    /// Where the point lies in the plane.
    pub open spec fn point(self) -> Point {
        Point { x: self.x as int, y: self.y as int }
    }
}

} // verus!

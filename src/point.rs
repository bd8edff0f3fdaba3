//! Voxel coordinates and the values attached to them.
use vstd::prelude::*;

verus! {

/// A voxel position `(x, y, z)` in the scan grid.
#[derive(Clone, Copy, Debug, PartialEq, Eq, PartialOrd, Ord, Hash, Structural)]
pub struct Point {
    pub x: u16,
    pub y: u16,
    pub z: u16,
}

impl Point {
    pub fn new(x: u16, y: u16, z: u16) -> (r: Point)
        ensures
            r.x == x,
            r.y == y,
            r.z == z,
    {
        Point { x, y, z }
    }
}

/// One intensity sample of the scan, at its voxel.
#[derive(Clone, Copy, Debug, PartialEq, Eq, PartialOrd, Ord, Hash, Structural)]
pub struct Data {
    pub point: Point,
    pub data: i16,
}

/// The representative intensity of a class; the position is not used by the
/// distance or the aggregation of this domain.
#[derive(Clone, Copy, Debug, PartialEq, Eq, PartialOrd, Ord, Hash, Structural)]
pub struct Center {
    pub point: Option<Point>,
    pub data: i16,
}

} // verus!

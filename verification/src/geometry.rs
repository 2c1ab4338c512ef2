//! Vectors and triangles with whole coordinates, as a mesh is written with them.

use vstd::prelude::*;

verus! {

/// Point in space with whole coordinates.
#[derive(Clone, Copy, Debug, PartialEq, Eq, Structural)]
pub struct Vector {
    pub x: i64,
    pub y: i64,
    pub z: i64,
}

impl Vector {
    /// The point with the coordinates `x`, `y` and `z`.
    pub fn new(x: i64, y: i64, z: i64) -> (v: Vector)
        ensures
            v == (Vector { x, y, z }),
    {
        Vector { x, y, z }
    }
}

/// Three corners of a face of a mesh.
#[derive(Clone, Copy, Debug)]
pub struct Triangle(pub [Vector; 3]);

} // verus!

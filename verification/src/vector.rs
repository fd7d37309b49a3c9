//! Triples of single-precision values.

use vstd::prelude::*;
use crate::binary32::Binary32;

verus! {

/// Three single-precision components: a colour with red, green and blue
/// between zero and one, or a point on the screen with `x` and `y` in pixels
/// and the depth in `z`.
#[derive(Clone, Copy, Debug, PartialEq, Eq)]
pub struct Vector3 {
    pub x: Binary32,
    pub y: Binary32,
    pub z: Binary32,
}

impl Vector3 {
    pub fn new(x: Binary32, y: Binary32, z: Binary32) -> (v: Vector3)
        ensures
            v == (Vector3 { x, y, z }),
    {
        Vector3 { x, y, z }
    }
}

} // verus!

//! Triangles.

use vstd::prelude::*;
use crate::vec3::Vec3;

verus! {

/// A triangle with the mean of its corners.
#[derive(Clone, Copy, Debug, PartialEq, Eq, Structural)]
pub struct Tri {
    pub vertex0: Vec3,
    pub vertex1: Vec3,
    pub vertex2: Vec3,
    pub centroid: Vec3,
}

/// The mean of three coordinates, rounded towards negative infinity.
pub open spec fn mean3(a: int, b: int, c: int) -> int {
    (a + b + c) / 3
}

impl Tri {
    /// The stored centroid is the rounded-down mean of the three corners.
    pub open spec fn wf(self) -> bool {
        &&& self.centroid.x == mean3(self.vertex0.x as int, self.vertex1.x as int, self.vertex2.x as int)
        &&& self.centroid.y == mean3(self.vertex0.y as int, self.vertex1.y as int, self.vertex2.y as int)
        &&& self.centroid.z == mean3(self.vertex0.z as int, self.vertex1.z as int, self.vertex2.z as int)
    }

    pub fn new(v0: Vec3, v1: Vec3, v2: Vec3) -> (t: Tri)
        ensures
            t.vertex0 == v0,
            t.vertex1 == v1,
            t.vertex2 == v2,
            t.wf(),
    {
        Tri {
            vertex0: v0,
            vertex1: v1,
            vertex2: v2,
            centroid: Vec3 {
                x: mean_of(v0.x, v1.x, v2.x),
                y: mean_of(v0.y, v1.y, v2.y),
                z: mean_of(v0.z, v1.z, v2.z),
            },
        }
    }
}

/// Rounded-down mean of three coordinates.
fn mean_of(a: i32, b: i32, c: i32) -> (r: i32)
    ensures
        r == mean3(a as int, b as int, c as int),
{
    // Shift the sum to be non-negative so that the division rounds down.
    let shift: i64 = 0x8000_0000;
    let s: i64 = a as i64 + b as i64 + c as i64 + 3 * shift;
    let q: i64 = s / 3;
    assert((a + b + c + 3 * shift) / 3 == (a + b + c) / 3 + shift);
    (q - shift) as i32
}

} // verus!

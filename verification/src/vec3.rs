//! Three-component vectors of 16.16 fixed-point numbers.

use vstd::prelude::*;

verus! {

/// The fixed-point representation of 1.
pub const ONE: i32 = 65536;

/// A point or direction whose components are 16.16 fixed-point numbers.
#[derive(Clone, Copy, Debug, PartialEq, Eq, Structural)]
pub struct Vec3 {
    pub x: i32,
    pub y: i32,
    pub z: i32,
}

impl Vec3 {
    /// Component `a` of the vector: 0 is x, 1 is y, anything else is z.
    pub open spec fn axis(self, a: int) -> int {
        if a == 0 {
            self.x as int
        } else if a == 1 {
            self.y as int
        } else {
            self.z as int
        }
    }

    /// Component-wise minimum.
    pub open spec fn spec_min(self, o: Vec3) -> Vec3 {
        Vec3 {
            x: if self.x <= o.x { self.x } else { o.x },
            y: if self.y <= o.y { self.y } else { o.y },
            z: if self.z <= o.z { self.z } else { o.z },
        }
    }

    /// Component-wise maximum.
    pub open spec fn spec_max(self, o: Vec3) -> Vec3 {
        Vec3 {
            x: if self.x >= o.x { self.x } else { o.x },
            y: if self.y >= o.y { self.y } else { o.y },
            z: if self.z >= o.z { self.z } else { o.z },
        }
    }

    /// Every component of `self` is at most the matching component of `o`.
    pub open spec fn le(self, o: Vec3) -> bool {
        self.x <= o.x && self.y <= o.y && self.z <= o.z
    }

    pub fn new(x: i32, y: i32, z: i32) -> (r: Vec3)
        ensures
            r == (Vec3 { x, y, z }),
    {
        Vec3 { x, y, z }
    }

    /// The vector with all three components equal to `v`.
    pub fn splat(v: i32) -> (r: Vec3)
        ensures
            r == (Vec3 { x: v, y: v, z: v }),
    {
        Vec3 { x: v, y: v, z: v }
    }

    /// Reads one component by axis number.
    pub fn get(&self, a: usize) -> (r: i32)
        requires
            a < 3,
        ensures
            r == self.axis(a as int),
    {
        if a == 0 {
            self.x
        } else if a == 1 {
            self.y
        } else {
            self.z
        }
    }

    pub fn min(self, o: Vec3) -> (r: Vec3)
        ensures
            r == self.spec_min(o),
    {
        Vec3 {
            x: if self.x <= o.x { self.x } else { o.x },
            y: if self.y <= o.y { self.y } else { o.y },
            z: if self.z <= o.z { self.z } else { o.z },
        }
    }

    pub fn max(self, o: Vec3) -> (r: Vec3)
        ensures
            r == self.spec_max(o),
    {
        Vec3 {
            x: if self.x >= o.x { self.x } else { o.x },
            y: if self.y >= o.y { self.y } else { o.y },
            z: if self.z >= o.z { self.z } else { o.z },
        }
    }
}

} // verus!

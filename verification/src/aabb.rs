//! Axis-aligned bounding boxes.

use vstd::prelude::*;
use crate::algebra::lemma_mul_bounded;
use crate::vec3::Vec3;

verus! {

/// An axis-aligned box given by its least and greatest corner.
///
/// A box whose least corner exceeds its greatest corner on some axis holds no
/// point. The box made by `default` is the least of all boxes: growing it by
/// a point gives the box of that single point.
#[derive(Clone, Copy, Debug, PartialEq, Eq, Structural)]
pub struct Aabb {
    pub bmin: Vec3,
    pub bmax: Vec3,
}

impl Aabb {
    /// The box that holds nothing and is enclosed by every other box.
    pub open spec fn spec_empty() -> Aabb {
        Aabb {
            bmin: Vec3 { x: i32::MAX, y: i32::MAX, z: i32::MAX },
            bmax: Vec3 { x: i32::MIN, y: i32::MIN, z: i32::MIN },
        }
    }

    /// The point `p` lies inside the box, faces included.
    pub open spec fn contains(self, p: Vec3) -> bool {
        self.bmin.le(p) && p.le(self.bmax)
    }

    /// The box reaches at least as far as `o` in all six directions.
    pub open spec fn encloses(self, o: Aabb) -> bool {
        self.bmin.le(o.bmin) && o.bmax.le(self.bmax)
    }

    /// The box after it has been extended to hold `p`.
    pub open spec fn spec_grow(self, p: Vec3) -> Aabb {
        Aabb { bmin: self.bmin.spec_min(p), bmax: self.bmax.spec_max(p) }
    }

    /// The least box that encloses both boxes.
    pub open spec fn spec_union(self, o: Aabb) -> Aabb {
        Aabb { bmin: self.bmin.spec_min(o.bmin), bmax: self.bmax.spec_max(o.bmax) }
    }

    /// Extent of the box along axis `a`; negative for a box that holds nothing.
    pub open spec fn extent(self, a: int) -> int {
        self.bmax.axis(a) - self.bmin.axis(a)
    }

    /// Half the surface area of the box, `ex*ey + ey*ez + ez*ex`.
    pub open spec fn spec_area(self) -> int {
        self.extent(0) * self.extent(1) + self.extent(1) * self.extent(2) + self.extent(2)
            * self.extent(0)
    }

    /// Extends the box to hold `p`. The box never shrinks.
    pub fn grow(&mut self, p: Vec3)
        ensures
            *final(self) == old(self).spec_grow(p),
            final(self).contains(p),
            final(self).encloses(*old(self)),
    {
        self.bmin = self.bmin.min(p);
        self.bmax = self.bmax.max(p);
    }

    /// Extends the box to enclose `b`. The box never shrinks.
    pub fn grow_aabb(&mut self, b: &Aabb)
        ensures
            *final(self) == old(self).spec_union(*b),
            final(self).encloses(*b),
            final(self).encloses(*old(self)),
    {
        self.bmin = self.bmin.min(b.bmin);
        self.bmax = self.bmax.max(b.bmax);
    }

    /// Half the surface area, the cost unit shared by both tree builders.
    pub fn area(&self) -> (r: i128)
        ensures
            r == self.spec_area(),
    {
        let ex: i128 = self.bmax.x as i128 - self.bmin.x as i128;
        let ey: i128 = self.bmax.y as i128 - self.bmin.y as i128;
        let ez: i128 = self.bmax.z as i128 - self.bmin.z as i128;
        proof {
            let b: int = 0x1_0000_0000;
            lemma_mul_bounded(ex as int, ey as int, b, b);
            lemma_mul_bounded(ey as int, ez as int, b, b);
            lemma_mul_bounded(ez as int, ex as int, b, b);
        }
        ex * ey + ey * ez + ez * ex
    }
}

impl Default for Aabb {
    fn default() -> (r: Aabb)
        ensures
            r == Aabb::spec_empty(),
    {
        Aabb { bmin: Vec3::splat(i32::MAX), bmax: Vec3::splat(i32::MIN) }
    }
}

/// The surface measure of any box with 32-bit corners fits in 67 bits.
pub proof fn lemma_area_bounded(b: Aabb)
    ensures
        -0x3_0000_0000_0000_0000 <= b.spec_area() <= 0x3_0000_0000_0000_0000,
{
    let m: int = 0x1_0000_0000;
    lemma_mul_bounded(b.extent(0), b.extent(1), m, m);
    lemma_mul_bounded(b.extent(1), b.extent(2), m, m);
    lemma_mul_bounded(b.extent(2), b.extent(0), m, m);
}

} // verus!

//! Affine placement of a mesh in the world, in 16.16 fixed point.

use vstd::prelude::*;
use crate::algebra::lemma_div_bounded;
use crate::ray::{fdiv, floor_div};
use crate::algebra::lemma_mul_bounded;
use crate::vec3::Vec3;

verus! {

/// An affine map: the point `p` goes to `(row0 . p, row1 . p, row2 . p) +
/// translation`, where the rows hold 16.16 fixed-point numbers and each dot
/// product is rounded down to a whole coordinate.
///
/// Distances along a ray are only kept by maps that neither shear nor scale
/// unevenly; the hierarchy over placed instances takes the map as it is and
/// does not check this.
#[derive(Clone, Copy, Debug, PartialEq, Eq, Structural)]
pub struct Transform {
    pub row0: Vec3,
    pub row1: Vec3,
    pub row2: Vec3,
    pub translation: Vec3,
}

/// `v`, or the nearest 32-bit integer if `v` is not one.
pub open spec fn clamp32(v: int) -> int {
    if v < i32::MIN {
        i32::MIN as int
    } else if v > i32::MAX {
        i32::MAX as int
    } else {
        v
    }
}

/// The dot product of a fixed-point row and a vector, rounded down to a whole coordinate.
pub open spec fn row_dot(row: Vec3, p: Vec3) -> int {
    (row.x * p.x + row.y * p.y + row.z * p.z) / 65536
}

/// The determinant of the matrix with rows `a`, `b`, `c`.
pub open spec fn det3(a: Vec3, b: Vec3, c: Vec3) -> int {
    a.x * (b.y * c.z - b.z * c.y) + a.y * (b.z * c.x - b.x * c.z) + a.z * (b.x * c.y - b.y * c.x)
}

/// One entry of the inverse: the cofactor `p * q - r * s`, scaled to fixed
/// point and divided by the determinant, rounded down and clamped to 32 bits.
pub open spec fn inv_entry(p: int, q: int, r: int, s: int, det: int) -> int {
    clamp32(fdiv((p * q - r * s) * 0x1_0000_0000, det))
}

impl Transform {
    /// The map that leaves every point where it is.
    pub open spec fn spec_identity() -> Transform {
        Transform {
            row0: Vec3 { x: 65536, y: 0, z: 0 },
            row1: Vec3 { x: 0, y: 65536, z: 0 },
            row2: Vec3 { x: 0, y: 0, z: 65536 },
            translation: Vec3 { x: 0, y: 0, z: 0 },
        }
    }

    /// The map that moves every point by `t`.
    pub open spec fn spec_from_translation(t: Vec3) -> Transform {
        Transform {
            row0: Vec3 { x: 65536, y: 0, z: 0 },
            row1: Vec3 { x: 0, y: 65536, z: 0 },
            row2: Vec3 { x: 0, y: 0, z: 65536 },
            translation: t,
        }
    }

    /// The image of the direction `d`: the rows applied to it, without the translation.
    pub open spec fn spec_vector(self, d: Vec3) -> Vec3 {
        Vec3 {
            x: clamp32(row_dot(self.row0, d)) as i32,
            y: clamp32(row_dot(self.row1, d)) as i32,
            z: clamp32(row_dot(self.row2, d)) as i32,
        }
    }

    /// The image of the point `p`. A coordinate that does not fit 32 bits is
    /// clamped to the nearest that does.
    pub open spec fn spec_point(self, p: Vec3) -> Vec3 {
        Vec3 {
            x: clamp32(row_dot(self.row0, p) + self.translation.x) as i32,
            y: clamp32(row_dot(self.row1, p) + self.translation.y) as i32,
            z: clamp32(row_dot(self.row2, p) + self.translation.z) as i32,
        }
    }

    /// The determinant of the rows.
    pub open spec fn spec_det(self) -> int {
        det3(self.row0, self.row1, self.row2)
    }

    /// The rows of the inverse matrix: the adjugate over the determinant.
    pub open spec fn spec_inverse_rows(self) -> (Vec3, Vec3, Vec3) {
        let a = self.row0;
        let b = self.row1;
        let c = self.row2;
        let det = self.spec_det();
        (
            Vec3 {
                x: inv_entry(b.y as int, c.z as int, b.z as int, c.y as int, det) as i32,
                y: inv_entry(a.z as int, c.y as int, a.y as int, c.z as int, det) as i32,
                z: inv_entry(a.y as int, b.z as int, a.z as int, b.y as int, det) as i32,
            },
            Vec3 {
                x: inv_entry(b.z as int, c.x as int, b.x as int, c.z as int, det) as i32,
                y: inv_entry(a.x as int, c.z as int, a.z as int, c.x as int, det) as i32,
                z: inv_entry(a.z as int, b.x as int, a.x as int, b.z as int, det) as i32,
            },
            Vec3 {
                x: inv_entry(b.x as int, c.y as int, b.y as int, c.x as int, det) as i32,
                y: inv_entry(a.y as int, c.x as int, a.x as int, c.y as int, det) as i32,
                z: inv_entry(a.x as int, b.y as int, a.y as int, b.x as int, det) as i32,
            },
        )
    }

    /// The map that undoes `self`, as far as fixed point allows: the inverse
    /// rows, and the translation that takes the image of the origin back to
    /// the origin. A map with determinant zero has none; it is given the map
    /// that sends everything to the origin.
    pub open spec fn spec_inverse(self) -> Transform {
        if self.spec_det() == 0 {
            Transform {
                row0: Vec3 { x: 0, y: 0, z: 0 },
                row1: Vec3 { x: 0, y: 0, z: 0 },
                row2: Vec3 { x: 0, y: 0, z: 0 },
                translation: Vec3 { x: 0, y: 0, z: 0 },
            }
        } else {
            let rows = self.spec_inverse_rows();
            Transform {
                row0: rows.0,
                row1: rows.1,
                row2: rows.2,
                translation: Vec3 {
                    x: clamp32(-row_dot(rows.0, self.translation)) as i32,
                    y: clamp32(-row_dot(rows.1, self.translation)) as i32,
                    z: clamp32(-row_dot(rows.2, self.translation)) as i32,
                },
            }
        }
    }

    /// The map that leaves every point where it is.
    pub fn identity() -> (r: Transform)
        ensures
            r == Transform::spec_identity(),
    {
        Transform {
            row0: Vec3::new(65536, 0, 0),
            row1: Vec3::new(0, 65536, 0),
            row2: Vec3::new(0, 0, 65536),
            translation: Vec3::new(0, 0, 0),
        }
    }

    /// The map that moves every point by `t`.
    pub fn from_translation(t: Vec3) -> (r: Transform)
        ensures
            r == Transform::spec_from_translation(t),
    {
        Transform {
            row0: Vec3::new(65536, 0, 0),
            row1: Vec3::new(0, 65536, 0),
            row2: Vec3::new(0, 0, 65536),
            translation: t,
        }
    }

    /// The image of the point `p`.
    pub fn transform_point3(&self, p: Vec3) -> (r: Vec3)
        ensures
            r == self.spec_point(p),
    {
        Vec3 {
            x: clamp(row_times(self.row0, p) + self.translation.x as i128),
            y: clamp(row_times(self.row1, p) + self.translation.y as i128),
            z: clamp(row_times(self.row2, p) + self.translation.z as i128),
        }
    }

    /// The image of the direction `d`.
    pub fn transform_vector3(&self, d: Vec3) -> (r: Vec3)
        ensures
            r == self.spec_vector(d),
    {
        Vec3 {
            x: clamp(row_times(self.row0, d)),
            y: clamp(row_times(self.row1, d)),
            z: clamp(row_times(self.row2, d)),
        }
    }

    /// The map that undoes `self`, as far as fixed point allows.
    pub fn inverse(&self) -> (r: Transform)
        ensures
            r == self.spec_inverse(),
    {
        let a = self.row0;
        let b = self.row1;
        let c = self.row2;
        let c0: i128 = minor(b.y, c.z, b.z, c.y);
        let c1: i128 = minor(b.z, c.x, b.x, c.z);
        let c2: i128 = minor(b.x, c.y, b.y, c.x);
        proof {
            let m: int = 0x8000_0000_0000_0000;
            lemma_mul_bounded(a.x as int, c0 as int, 0x8000_0000, m);
            lemma_mul_bounded(a.y as int, c1 as int, 0x8000_0000, m);
            lemma_mul_bounded(a.z as int, c2 as int, 0x8000_0000, m);
        }
        let det: i128 = a.x as i128 * c0 + a.y as i128 * c1 + a.z as i128 * c2;
        if det == 0 {
            return Transform {
                row0: Vec3::new(0, 0, 0),
                row1: Vec3::new(0, 0, 0),
                row2: Vec3::new(0, 0, 0),
                translation: Vec3::new(0, 0, 0),
            };
        }
        let r0 = Vec3 {
            x: entry(b.y, c.z, b.z, c.y, det),
            y: entry(a.z, c.y, a.y, c.z, det),
            z: entry(a.y, b.z, a.z, b.y, det),
        };
        let r1 = Vec3 {
            x: entry(b.z, c.x, b.x, c.z, det),
            y: entry(a.x, c.z, a.z, c.x, det),
            z: entry(a.z, b.x, a.x, b.z, det),
        };
        let r2 = Vec3 {
            x: entry(b.x, c.y, b.y, c.x, det),
            y: entry(a.y, c.x, a.x, c.y, det),
            z: entry(a.x, b.y, a.y, b.x, det),
        };
        let t = self.translation;
        Transform {
            row0: r0,
            row1: r1,
            row2: r2,
            translation: Vec3 {
                x: clamp(-row_times(r0, t)),
                y: clamp(-row_times(r1, t)),
                z: clamp(-row_times(r2, t)),
            },
        }
    }
}

/// The nearest 32-bit integer.
fn clamp(v: i128) -> (r: i32)
    ensures
        r == clamp32(v as int),
{
    if v < i32::MIN as i128 {
        i32::MIN
    } else if v > i32::MAX as i128 {
        i32::MAX
    } else {
        v as i32
    }
}

/// The dot product of a fixed-point row and a vector, rounded down.
fn row_times(row: Vec3, p: Vec3) -> (r: i128)
    ensures
        r == row_dot(row, p),
        -0x1_0000_0000_0000_0000 <= r <= 0x1_0000_0000_0000_0000,
{
    proof {
        lemma_mul_bounded(row.x as int, p.x as int, 0x8000_0000, 0x8000_0000);
        lemma_mul_bounded(row.y as int, p.y as int, 0x8000_0000, 0x8000_0000);
        lemma_mul_bounded(row.z as int, p.z as int, 0x8000_0000, 0x8000_0000);
    }
    let s: i128 = row.x as i128 * p.x as i128 + row.y as i128 * p.y as i128 + row.z as i128
        * p.z as i128;
    proof {
        lemma_div_bounded(s as int, 65536, 0x1_0000_0000_0000_0000);
    }
    floor_div(s, 65536)
}

/// The two-by-two determinant `p * q - r * s`.
fn minor(p: i32, q: i32, r: i32, s: i32) -> (m: i128)
    ensures
        m == p * q - r * s,
        -0x8000_0000_0000_0000 <= m <= 0x8000_0000_0000_0000,
{
    proof {
        lemma_mul_bounded(p as int, q as int, 0x8000_0000, 0x8000_0000);
        lemma_mul_bounded(r as int, s as int, 0x8000_0000, 0x8000_0000);
    }
    p as i128 * q as i128 - r as i128 * s as i128
}

/// One entry of the inverse matrix.
fn entry(p: i32, q: i32, r: i32, s: i32, det: i128) -> (e: i32)
    requires
        det != 0,
        det > i128::MIN,
    ensures
        e == inv_entry(p as int, q as int, r as int, s as int, det as int),
{
    let m: i128 = minor(p, q, r, s);
    let n: i128 = m * 0x1_0000_0000;
    if det > 0 {
        clamp(floor_div(n, det))
    } else {
        clamp(floor_div(-n, -det))
    }
}

} // verus!

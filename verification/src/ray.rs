//! Rays and the two primitive tests: ray against box, ray against triangle.

use vstd::prelude::*;
use crate::tri::Tri;
use crate::algebra::{lemma_div_bounded, lemma_fraction_bounded, lemma_mul_bounded};
use crate::vec3::Vec3;

verus! {

/// The distance of a ray that has not been limited and has hit nothing yet.
pub const T_MAX: i64 = i64::MAX;

/// A triangle is only hit at a distance above this, so that a ray that
/// starts on a surface does not hit that surface again.
pub const T_EPSILON: i64 = 6;

/// A ray whose determinant against a triangle is at most this in absolute
/// value is taken to run parallel to it. In 16.16 fixed point the determinant
/// carries 48 fractional bits: this is 0.0001.
pub const DET_EPSILON: i128 = 28_147_497_671;

/// Where a ray met a triangle.
///
/// `t` is the distance along the ray in units of the ray's direction, `u`
/// and `v` are the barycentric coordinates of the point with respect to the
/// second and third corner; all three are 16.16 fixed-point numbers.
#[derive(Clone, Copy, Debug, PartialEq, Eq, Structural)]
pub struct Hit {
    pub t: i64,
    pub u: i64,
    pub v: i64,
    pub tri_index: usize,
    pub owner: u64,
}

/// A ray, the distance `t` beyond which nothing is of interest, and the
/// nearest hit found so far.
#[derive(Clone, Copy, Debug, PartialEq, Eq, Structural)]
pub struct Ray {
    pub origin: Vec3,
    pub direction: Vec3,
    pub t: i64,
    pub hit: Option<Hit>,
}

/// The quotient `n / d` rounded towards negative infinity, for `d != 0`.
pub open spec fn fdiv(n: int, d: int) -> int {
    if d > 0 {
        n / d
    } else {
        (-n) / (-d)
    }
}

/// The distance at which a ray from `o` with speed `d` along one axis enters
/// the stretch `bmin ..= bmax` of that axis. A ray that does not move along
/// the axis is inside for all distances or for none.
pub open spec fn slab_enter(bmin: int, bmax: int, o: int, d: int) -> int {
    if d > 0 {
        fdiv((bmin - o) * 65536, d)
    } else if d < 0 {
        fdiv((bmax - o) * 65536, d)
    } else if bmin <= o <= bmax {
        i64::MIN as int
    } else {
        i64::MAX as int
    }
}

/// The distance at which the ray leaves the stretch again.
pub open spec fn slab_leave(bmin: int, bmax: int, o: int, d: int) -> int {
    if d > 0 {
        fdiv((bmax - o) * 65536, d)
    } else if d < 0 {
        fdiv((bmin - o) * 65536, d)
    } else if bmin <= o <= bmax {
        i64::MAX as int
    } else {
        i64::MIN as int
    }
}

/// The greatest of three integers.
pub open spec fn max3(a: int, b: int, c: int) -> int {
    if a >= b && a >= c {
        a
    } else if b >= c {
        b
    } else {
        c
    }
}

/// The least of three integers.
pub open spec fn min3(a: int, b: int, c: int) -> int {
    if a <= b && a <= c {
        a
    } else if b <= c {
        b
    } else {
        c
    }
}

/// The distance at which the ray enters the box, over all three axes.
pub open spec fn box_enter(o: Vec3, d: Vec3, bmin: Vec3, bmax: Vec3) -> int {
    max3(
        slab_enter(bmin.x as int, bmax.x as int, o.x as int, d.x as int),
        slab_enter(bmin.y as int, bmax.y as int, o.y as int, d.y as int),
        slab_enter(bmin.z as int, bmax.z as int, o.z as int, d.z as int),
    )
}

/// The distance at which the ray leaves the box, over all three axes.
pub open spec fn box_leave(o: Vec3, d: Vec3, bmin: Vec3, bmax: Vec3) -> int {
    min3(
        slab_leave(bmin.x as int, bmax.x as int, o.x as int, d.x as int),
        slab_leave(bmin.y as int, bmax.y as int, o.y as int, d.y as int),
        slab_leave(bmin.z as int, bmax.z as int, o.z as int, d.z as int),
    )
}

impl Ray {
    /// The distance at which the ray enters the box, if it passes through it
    /// in front of its origin and before its current best distance.
    pub open spec fn spec_intersect_aabb(self, bmin: Vec3, bmax: Vec3) -> Option<i64> {
        let enter = box_enter(self.origin, self.direction, bmin, bmax);
        let leave = box_leave(self.origin, self.direction, bmin, bmax);
        if leave >= enter && enter < self.t && leave > 0 {
            Some(enter as i64)
        } else {
            None
        }
    }

    /// A ray from `origin` along `direction` without a limit and without a hit.
    pub fn new(origin: Vec3, direction: Vec3) -> (r: Ray)
        ensures
            r == (Ray { origin, direction, t: T_MAX, hit: None }),
    {
        Ray { origin, direction, t: T_MAX, hit: None }
    }

    /// The slab test: the distance at which the ray enters the box `bmin ..=
    /// bmax`, or `None` if the ray misses the box, leaves it behind its
    /// origin, or enters it no nearer than its current best distance.
    pub fn intersect_aabb(&self, bmin: Vec3, bmax: Vec3) -> (r: Option<i64>)
        ensures
            r == self.spec_intersect_aabb(bmin, bmax),
    {
        let (ex, lx) = slab(bmin.x, bmax.x, self.origin.x, self.direction.x);
        let (ey, ly) = slab(bmin.y, bmax.y, self.origin.y, self.direction.y);
        let (ez, lz) = slab(bmin.z, bmax.z, self.origin.z, self.direction.z);
        let enter: i64 = if ex >= ey && ex >= ez {
            ex
        } else if ey >= ez {
            ey
        } else {
            ez
        };
        let leave: i64 = if lx <= ly && lx <= lz {
            lx
        } else if ly <= lz {
            ly
        } else {
            lz
        };
        if leave >= enter && enter < self.t && leave > 0 {
            Some(enter)
        } else {
            None
        }
    }
}

impl Default for Hit {
    fn default() -> (r: Hit)
        ensures
            r == (Hit { t: T_MAX, u: 0, v: 0, tri_index: 0, owner: 0 }),
    {
        Hit { t: T_MAX, u: 0, v: 0, tri_index: 0, owner: 0 }
    }
}

impl Default for Ray {
    fn default() -> (r: Ray)
        ensures
            r == (Ray {
                origin: Vec3 { x: 0, y: 0, z: 0 },
                direction: Vec3 { x: 0, y: 0, z: 65536 },
                t: T_MAX,
                hit: None,
            }),
    {
        Ray { origin: Vec3::new(0, 0, 0), direction: Vec3::new(0, 0, 65536), t: T_MAX, hit: None }
    }
}

/// `n / d` rounded towards negative infinity.
pub(crate) fn floor_div(n: i128, d: i128) -> (r: i128)
    requires
        d > 0,
        n > i128::MIN,
    ensures
        r == n / d,
{
    if n >= 0 {
        n / d
    } else {
        let m: i128 = -n;
        let q: i128 = (m - 1) / d;
        assert(-q - 1 == (n as int) / (d as int)) by (nonlinear_arith)
            requires
                d > 0,
                m == -n,
                m > 0,
                q == ((m - 1) as int) / (d as int),
        ;
        -q - 1
    }
}

/// Entry and exit distance of a ray along one axis.
fn slab(bmin: i32, bmax: i32, o: i32, d: i32) -> (r: (i64, i64))
    ensures
        r.0 == slab_enter(bmin as int, bmax as int, o as int, d as int),
        r.1 == slab_leave(bmin as int, bmax as int, o as int, d as int),
{
    if d == 0 {
        if bmin <= o && o <= bmax {
            (i64::MIN, i64::MAX)
        } else {
            (i64::MAX, i64::MIN)
        }
    } else {
        let n1: i128 = (bmin as i128 - o as i128) * 65536;
        let n2: i128 = (bmax as i128 - o as i128) * 65536;
        if d > 0 {
            let a: i128 = floor_div(n1, d as i128);
            let b: i128 = floor_div(n2, d as i128);
            proof {
                lemma_div_bounded(n1 as int, d as int, 0x1_0000_0000_0000);
                lemma_div_bounded(n2 as int, d as int, 0x1_0000_0000_0000);
            }
            (a as i64, b as i64)
        } else {
            let a: i128 = floor_div(-n2, -(d as i128));
            let b: i128 = floor_div(-n1, -(d as i128));
            proof {
                lemma_div_bounded(-n1 as int, -(d as int), 0x1_0000_0000_0000);
                lemma_div_bounded(-n2 as int, -(d as int), 0x1_0000_0000_0000);
            }
            (a as i64, b as i64)
        }
    }
}

/// A vector of three unbounded integers.
pub struct IVec {
    pub x: int,
    pub y: int,
    pub z: int,
}

/// The vector from `b` to `a`.
pub open spec fn diff(a: Vec3, b: Vec3) -> IVec {
    IVec { x: a.x - b.x, y: a.y - b.y, z: a.z - b.z }
}

/// `a` as a vector of unbounded integers.
pub open spec fn ivec(a: Vec3) -> IVec {
    IVec { x: a.x as int, y: a.y as int, z: a.z as int }
}

/// The cross product.
pub open spec fn cross(a: IVec, b: IVec) -> IVec {
    IVec { x: a.y * b.z - a.z * b.y, y: a.z * b.x - a.x * b.z, z: a.x * b.y - a.y * b.x }
}

/// The dot product.
pub open spec fn dot(a: IVec, b: IVec) -> int {
    a.x * b.x + a.y * b.y + a.z * b.z
}

/// The four determinants of the Moeller-Trumbore test of a ray from `o`
/// along `d` against `tri`: the distance is `tn / det`, the barycentric
/// coordinates are `un / det` and `vn / det`.
pub struct Meet {
    pub det: int,
    pub un: int,
    pub vn: int,
    pub tn: int,
}

/// The determinants of a ray against a triangle, with `det` made non-negative.
pub open spec fn meet(o: Vec3, d: Vec3, tri: Tri) -> Meet {
    let e1 = diff(tri.vertex1, tri.vertex0);
    let e2 = diff(tri.vertex2, tri.vertex0);
    let h = cross(ivec(d), e2);
    let a = dot(e1, h);
    let s = diff(o, tri.vertex0);
    let q = cross(s, e1);
    let un = dot(s, h);
    let vn = dot(ivec(d), q);
    let tn = dot(e2, q);
    if a < 0 {
        Meet { det: -a, un: -un, vn: -vn, tn: -tn }
    } else {
        Meet { det: a, un, vn, tn }
    }
}

/// Distance and barycentric coordinates, as 16.16 fixed-point numbers rounded
/// down, of the point where the ray from `o` along `d` passes through `tri`;
/// `None` where it runs parallel to the triangle, passes beside it, or meets
/// it no farther than `T_EPSILON` in front of its origin.
pub open spec fn tri_hit(o: Vec3, d: Vec3, tri: Tri) -> Option<(int, int, int)> {
    let m = meet(o, d, tri);
    if m.det <= DET_EPSILON {
        None
    } else if m.un < 0 || m.un > m.det {
        None
    } else if m.vn < 0 || m.un + m.vn > m.det {
        None
    } else if (m.tn * 65536) / m.det > T_EPSILON {
        Some(((m.tn * 65536) / m.det, (m.un * 65536) / m.det, (m.vn * 65536) / m.det))
    } else {
        None
    }
}

impl Ray {
    /// The ray after it has been tested against `tri`: if the ray passes
    /// through the triangle nearer than its current best distance, that
    /// distance and the hit are replaced; otherwise nothing changes.
    pub open spec fn spec_intersect_triangle(self, tri: Tri, tri_index: usize, owner: u64) -> Ray {
        match tri_hit(self.origin, self.direction, tri) {
            Some(h) => if h.0 < self.t {
                Ray {
                    origin: self.origin,
                    direction: self.direction,
                    t: h.0 as i64,
                    hit: Some(
                        Hit { t: h.0 as i64, u: h.1 as i64, v: h.2 as i64, tri_index, owner },
                    ),
                }
            } else {
                self
            },
            None => self,
        }
    }

    /// The Moeller-Trumbore test of the ray against `tri`. A hit nearer than
    /// the current best distance is recorded with the triangle's number and
    /// the owner given.
    pub fn intersect_triangle(&mut self, tri: &Tri, tri_index: usize, owner: u64)
        ensures
            *final(self) == old(self).spec_intersect_triangle(*tri, tri_index, owner),
    {
        let ghost b32: int = 0x1_0000_0000;
        let e1: W3 = wdiff(tri.vertex1, tri.vertex0);
        let e2: W3 = wdiff(tri.vertex2, tri.vertex0);
        let d: W3 = wdiff(self.direction, Vec3 { x: 0, y: 0, z: 0 });
        let h: W3 = wcross(&d, &e2, Ghost(b32), Ghost(b32));
        let a: i128 = wdot(&e1, &h, Ghost(b32), Ghost(2 * b32 * b32));
        if a >= -DET_EPSILON && a <= DET_EPSILON {
            return ;
        }
        let s: W3 = wdiff(self.origin, tri.vertex0);
        let un0: i128 = wdot(&s, &h, Ghost(b32), Ghost(2 * b32 * b32));
        let q: W3 = wcross(&s, &e1, Ghost(b32), Ghost(b32));
        let vn0: i128 = wdot(&d, &q, Ghost(b32), Ghost(2 * b32 * b32));
        let tn0: i128 = wdot(&e2, &q, Ghost(b32), Ghost(2 * b32 * b32));
        let neg: bool = a < 0;
        let det: i128 = if neg {
            -a
        } else {
            a
        };
        let un: i128 = if neg {
            -un0
        } else {
            un0
        };
        let vn: i128 = if neg {
            -vn0
        } else {
            vn0
        };
        let tn: i128 = if neg {
            -tn0
        } else {
            tn0
        };
        proof {
            let m = meet(self.origin, self.direction, *tri);
            assert(d@ == ivec(self.direction));
            assert(m.det == det && m.un == un && m.vn == vn && m.tn == tn);
        }
        if un < 0 || un > det {
            return ;
        }
        if vn < 0 || un + vn > det {
            return ;
        }
        let t: i128 = floor_div(tn * 65536, det);
        if t > T_EPSILON as i128 && t < self.t as i128 {
            let u: i128 = floor_div(un * 65536, det);
            let v: i128 = floor_div(vn * 65536, det);
            proof {
                lemma_fraction_bounded(un as int, det as int);
                lemma_fraction_bounded(vn as int, det as int);
            }
            self.t = t as i64;
            self.hit = Some(Hit { t: t as i64, u: u as i64, v: v as i64, tri_index, owner });
        }
    }
}

/// A vector of three wide machine integers.
struct W3 {
    x: i128,
    y: i128,
    z: i128,
}

impl W3 {
    spec fn view(self) -> IVec {
        IVec { x: self.x as int, y: self.y as int, z: self.z as int }
    }

    spec fn within(self, b: int) -> bool {
        -b <= self.x <= b && -b <= self.y <= b && -b <= self.z <= b
    }
}

fn wdiff(a: Vec3, b: Vec3) -> (r: W3)
    ensures
        r@ == diff(a, b),
        r.within(0x1_0000_0000),
{
    W3 {
        x: a.x as i128 - b.x as i128,
        y: a.y as i128 - b.y as i128,
        z: a.z as i128 - b.z as i128,
    }
}

fn wmul(a: i128, b: i128, Ghost(ba): Ghost<int>, Ghost(bb): Ghost<int>) -> (r: i128)
    requires
        -ba <= a <= ba,
        -bb <= b <= bb,
        ba * bb <= 0x1000_0000_0000_0000_0000_0000_0000_0000,
    ensures
        r == a * b,
        -(ba * bb) <= r <= ba * bb,
{
    proof {
        lemma_mul_bounded(a as int, b as int, ba, bb);
    }
    a * b
}

fn wcross(a: &W3, b: &W3, Ghost(ba): Ghost<int>, Ghost(bb): Ghost<int>) -> (r: W3)
    requires
        a.within(ba),
        b.within(bb),
        ba * bb <= 0x1000_0000_0000_0000_0000_0000_0000_0000,
    ensures
        r@ == cross(a@, b@),
        r.within(2 * ba * bb),
{
    let x1: i128 = wmul(a.y, b.z, Ghost(ba), Ghost(bb));
    let x2: i128 = wmul(a.z, b.y, Ghost(ba), Ghost(bb));
    let y1: i128 = wmul(a.z, b.x, Ghost(ba), Ghost(bb));
    let y2: i128 = wmul(a.x, b.z, Ghost(ba), Ghost(bb));
    let z1: i128 = wmul(a.x, b.y, Ghost(ba), Ghost(bb));
    let z2: i128 = wmul(a.y, b.x, Ghost(ba), Ghost(bb));
    assert(2 * ba * bb == 2 * (ba * bb)) by (nonlinear_arith);
    W3 { x: x1 - x2, y: y1 - y2, z: z1 - z2 }
}

fn wdot(a: &W3, b: &W3, Ghost(ba): Ghost<int>, Ghost(bb): Ghost<int>) -> (r: i128)
    requires
        a.within(ba),
        b.within(bb),
        ba * bb <= 0x1000_0000_0000_0000_0000_0000_0000_0000,
    ensures
        r == dot(a@, b@),
        -(3 * ba * bb) <= r <= 3 * ba * bb,
{
    let x: i128 = wmul(a.x, b.x, Ghost(ba), Ghost(bb));
    let y: i128 = wmul(a.y, b.y, Ghost(ba), Ghost(bb));
    let z: i128 = wmul(a.z, b.z, Ghost(ba), Ghost(bb));
    assert(3 * ba * bb == 3 * (ba * bb)) by (nonlinear_arith);
    x + y + z
}

} // verus!

//! A hierarchy placed in the world.

use vstd::prelude::*;
use crate::aabb::Aabb;
use crate::algebra::lemma_term_between;
use crate::bvh::{Bvh, BvhNode};
use crate::ray::Ray;
use crate::transform::{row_dot, Transform};
use crate::traverse::after_node;
use crate::vec3::Vec3;

verus! {

/// One placement of a hierarchy: which hierarchy, the map from the world
/// back into the hierarchy's own space, the box that the placed hierarchy
/// takes up in the world, and the handle of whoever owns the placement.
///
/// Distances along a ray are measured in the hierarchy's own space. They
/// agree with distances in the world only where the placement neither shears
/// nor scales unevenly.
#[derive(Clone, Copy, Debug)]
pub struct BvhInstance {
    pub bvh_index: usize,
    pub inv_trans: Transform,
    pub bounds: Aabb,
    pub owner: u64,
}

/// Corner `k` of the box, `k` in `0 .. 8`: bit 0 of `k` chooses the greater
/// x coordinate, bit 1 the greater y, bit 2 the greater z.
pub open spec fn corner(b: Aabb, k: int) -> Vec3 {
    Vec3 {
        x: if k % 2 == 1 {
            b.bmax.x
        } else {
            b.bmin.x
        },
        y: if (k / 2) % 2 == 1 {
            b.bmax.y
        } else {
            b.bmin.y
        },
        z: if (k / 4) % 2 == 1 {
            b.bmax.z
        } else {
            b.bmin.z
        },
    }
}

/// The least box around the images of the first `k` corners of `b`.
pub open spec fn world_box_upto(t: Transform, b: Aabb, k: int) -> Aabb
    decreases k,
{
    if k <= 0 {
        Aabb::spec_empty()
    } else {
        world_box_upto(t, b, k - 1).spec_grow(t.spec_point(corner(b, k - 1)))
    }
}

/// The least box around the images of the eight corners of `b`.
pub open spec fn world_box(t: Transform, b: Aabb) -> Aabb {
    world_box_upto(t, b, 8)
}

/// The ray as the hierarchy placed by the inverse map `inv` sees it.
pub open spec fn local_ray(ray: Ray, inv: Transform) -> Ray {
    Ray {
        origin: inv.spec_point(ray.origin),
        direction: inv.spec_vector(ray.direction),
        t: ray.t,
        hit: ray.hit,
    }
}

/// The ray after it has been tested against the placement `inst` of one of `bvhs`.
pub open spec fn after_instance(ray: Ray, inst: BvhInstance, bvhs: Seq<Bvh>) -> Ray {
    let r = after_node(bvhs[inst.bvh_index as int], local_ray(ray, inst.inv_trans), 0, inst.owner);
    Ray { origin: ray.origin, direction: ray.direction, t: r.t, hit: r.hit }
}

impl BvhInstance {
    /// A placement of hierarchy number `bvh_index` that has not been given a
    /// map yet: it leaves the hierarchy where it is and takes up no room.
    pub fn new(owner: u64, bvh_index: usize) -> (r: BvhInstance)
        ensures
            r.owner == owner,
            r.bvh_index == bvh_index,
            r.inv_trans == Transform::spec_identity(),
            r.bounds == Aabb::spec_empty(),
    {
        BvhInstance {
            bvh_index,
            inv_trans: Transform::identity(),
            bounds: Aabb::default(),
            owner,
        }
    }

    /// Places the hierarchy with root `root` by the map `trans`: the inverse
    /// map is stored, and the box around the images of the eight corners of
    /// the root's box.
    pub fn update(&mut self, trans: &Transform, root: &BvhNode)
        ensures
            final(self).bvh_index == old(self).bvh_index,
            final(self).owner == old(self).owner,
            final(self).inv_trans == trans.spec_inverse(),
            final(self).bounds == world_box(*trans, root.aabb()),
    {
        self.inv_trans = trans.inverse();
        let bmin = root.aabb_min;
        let bmax = root.aabb_max;
        let mut bounds = Aabb::default();
        let mut k: usize = 0;
        while k < 8
            invariant
                k <= 8,
                bmin == root.aabb_min,
                bmax == root.aabb_max,
                bounds == world_box_upto(*trans, root.aabb(), k as int),
            decreases 8 - k,
        {
            let p = Vec3 {
                x: if k % 2 == 1 {
                    bmax.x
                } else {
                    bmin.x
                },
                y: if (k / 2) % 2 == 1 {
                    bmax.y
                } else {
                    bmin.y
                },
                z: if (k / 4) % 2 == 1 {
                    bmax.z
                } else {
                    bmin.z
                },
            };
            bounds.grow(trans.transform_point3(p));
            k += 1;
        }
        self.bounds = bounds;
    }

    /// Tests `ray` against the placed hierarchy.
    pub fn intersect(&self, ray: &mut Ray, bvhs: &Vec<Bvh>)
        requires
            self.bvh_index < bvhs.len(),
            bvhs@[self.bvh_index as int].structured(),
        ensures
            *final(ray) == after_instance(*old(ray), *self, bvhs@),
    {
        ray.intersect_bvh_instance(self, bvhs);
    }
}

impl Ray {
    /// Tests the ray against the placement `bvh_instance` of one of `bvhs`:
    /// the ray is taken into the hierarchy's own space, the hierarchy is
    /// searched there, and the ray keeps its own origin and direction with
    /// whatever nearer hit was found.
    pub fn intersect_bvh_instance(&mut self, bvh_instance: &BvhInstance, bvhs: &Vec<Bvh>)
        requires
            bvh_instance.bvh_index < bvhs.len(),
            bvhs@[bvh_instance.bvh_index as int].structured(),
        ensures
            *final(self) == after_instance(*old(self), *bvh_instance, bvhs@),
    {
        let bvh = &bvhs[bvh_instance.bvh_index];
        let mut local = Ray {
            origin: bvh_instance.inv_trans.transform_point3(self.origin),
            direction: bvh_instance.inv_trans.transform_vector3(self.direction),
            t: self.t,
            hit: self.hit,
        };
        local.intersect_bvh(bvh, bvh_instance.owner);
        self.t = local.t;
        self.hit = local.hit;
    }
}


/// The image of `p` under `t` fits the coordinates without clamping.
pub open spec fn unclamped(t: Transform, p: Vec3) -> bool {
    &&& i32::MIN <= row_dot(t.row0, p) + t.translation.x <= i32::MAX
    &&& i32::MIN <= row_dot(t.row1, p) + t.translation.y <= i32::MAX
    &&& i32::MIN <= row_dot(t.row2, p) + t.translation.z <= i32::MAX
}

/// The box moved by `s`.
pub open spec fn shifted(b: Aabb, s: Vec3) -> Aabb {
    Aabb {
        bmin: Vec3 {
            x: (b.bmin.x + s.x) as i32,
            y: (b.bmin.y + s.y) as i32,
            z: (b.bmin.z + s.z) as i32,
        },
        bmax: Vec3 {
            x: (b.bmax.x + s.x) as i32,
            y: (b.bmax.y + s.y) as i32,
            z: (b.bmax.z + s.z) as i32,
        },
    }
}

/// The box can be moved by `s` without leaving the range of the coordinates.
pub open spec fn can_shift(b: Aabb, s: Vec3) -> bool {
    &&& i32::MIN <= b.bmin.x + s.x <= i32::MAX
    &&& i32::MIN <= b.bmin.y + s.y <= i32::MAX
    &&& i32::MIN <= b.bmin.z + s.z <= i32::MAX
    &&& i32::MIN <= b.bmax.x + s.x <= i32::MAX
    &&& i32::MIN <= b.bmax.y + s.y <= i32::MAX
    &&& i32::MIN <= b.bmax.z + s.z <= i32::MAX
}

/// The map `t` followed by a move by `s`.
pub open spec fn moved(t: Transform, s: Vec3) -> Transform {
    Transform {
        row0: t.row0,
        row1: t.row1,
        row2: t.row2,
        translation: Vec3 {
            x: (t.translation.x + s.x) as i32,
            y: (t.translation.y + s.y) as i32,
            z: (t.translation.z + s.z) as i32,
        },
    }
}

proof fn lemma_world_box_translates_upto(t: Transform, s: Vec3, b: Aabb, k: int)
    requires
        1 <= k <= 8,
        i32::MIN <= t.translation.x + s.x <= i32::MAX,
        i32::MIN <= t.translation.y + s.y <= i32::MAX,
        i32::MIN <= t.translation.z + s.z <= i32::MAX,
        forall|j: int|
            0 <= j < 8 ==> unclamped(t, #[trigger] corner(b, j)) && unclamped(
                moved(t, s),
                corner(b, j),
            ),
    ensures
        world_box_upto(moved(t, s), b, k) == shifted(world_box_upto(t, b, k), s),
        can_shift(world_box_upto(t, b, k), s),
    decreases k,
{
    let c = corner(b, k - 1);
    assert(unclamped(t, c) && unclamped(moved(t, s), c));
    if k > 1 {
        lemma_world_box_translates_upto(t, s, b, k - 1);
    } else {
        assert(world_box_upto(t, b, 0) == Aabb::spec_empty());
        assert(world_box_upto(moved(t, s), b, 0) == Aabb::spec_empty());
    }
}

/// Moving the placement moves the box of the placed hierarchy by as much,
/// as long as no corner leaves the range of the coordinates.
pub proof fn lemma_world_box_translates(t: Transform, s: Vec3, b: Aabb)
    requires
        i32::MIN <= t.translation.x + s.x <= i32::MAX,
        i32::MIN <= t.translation.y + s.y <= i32::MAX,
        i32::MIN <= t.translation.z + s.z <= i32::MAX,
        forall|j: int|
            0 <= j < 8 ==> unclamped(t, #[trigger] corner(b, j)) && unclamped(
                moved(t, s),
                corner(b, j),
            ),
    ensures
        world_box(moved(t, s), b) == shifted(world_box(t, b), s),
{
    lemma_world_box_translates_upto(t, s, b, 8);
}

/// The box of the placed hierarchy holds the images of all eight corners.
pub proof fn lemma_world_box_holds_corners(t: Transform, b: Aabb, k: int)
    requires
        0 <= k <= 8,
    ensures
        forall|j: int|
            0 <= j < k ==> world_box_upto(t, b, k).contains(t.spec_point(#[trigger] corner(b, j))),
        forall|j: int|
            0 <= j < k ==> world_box(t, b).contains(t.spec_point(#[trigger] corner(b, j))),
    decreases 8 - k,
{
    lemma_world_box_grows(t, b, k);
    if k < 8 {
        lemma_world_box_holds_corners(t, b, k + 1);
    }
}

proof fn lemma_world_box_grows(t: Transform, b: Aabb, k: int)
    requires
        0 <= k <= 8,
    ensures
        forall|j: int|
            0 <= j < k ==> world_box_upto(t, b, k).contains(t.spec_point(#[trigger] corner(b, j))),
        world_box(t, b).encloses(world_box_upto(t, b, k)),
    decreases k,
{
    if k > 0 {
        lemma_world_box_grows(t, b, k - 1);
        assert forall|j: int| 0 <= j < k implies world_box_upto(t, b, k).contains(
            t.spec_point(#[trigger] corner(b, j)),
        ) by {
            if j < k - 1 {
                assert(world_box_upto(t, b, k - 1).contains(t.spec_point(corner(b, j))));
            }
        }
    }
    lemma_world_box_chain(t, b, k);
}

proof fn lemma_world_box_chain(t: Transform, b: Aabb, k: int)
    requires
        0 <= k <= 8,
    ensures
        world_box(t, b).encloses(world_box_upto(t, b, k)),
    decreases 8 - k,
{
    if k < 8 {
        lemma_world_box_chain(t, b, k + 1);
    }
}

/// Among the corners of a box there is one whose image under a row lies
/// no higher, and one whose image lies no lower, than the image of any
/// given point of the box.
proof fn lemma_row_between_corners(row: Vec3, b: Aabb, p: Vec3) -> (k: (int, int))
    requires
        b.contains(p),
    ensures
        0 <= k.0 < 8,
        0 <= k.1 < 8,
        row_dot(row, corner(b, k.0)) <= row_dot(row, p) <= row_dot(row, corner(b, k.1)),
{
    lemma_term_between(row.x as int, p.x as int, b.bmin.x as int, b.bmax.x as int);
    lemma_term_between(row.y as int, p.y as int, b.bmin.y as int, b.bmax.y as int);
    lemma_term_between(row.z as int, p.z as int, b.bmin.z as int, b.bmax.z as int);
    let lo: int = (if row.x < 0 {
        1int
    } else {
        0int
    }) + (if row.y < 0 {
        2int
    } else {
        0int
    }) + (if row.z < 0 {
        4int
    } else {
        0int
    });
    let hi: int = 7 - lo;
    (lo, hi)
}

/// The box of the placed hierarchy holds the image of every point of the
/// hierarchy's own box, whatever the placement: it may be loose where the
/// hierarchy is turned, but it never leaves anything out.
pub proof fn lemma_world_box_holds_images(t: Transform, b: Aabb, p: Vec3)
    requires
        b.contains(p),
    ensures
        world_box(t, b).contains(t.spec_point(p)),
{
    lemma_world_box_holds_corners(t, b, 8);
    let kx = lemma_row_between_corners(t.row0, b, p);
    let ky = lemma_row_between_corners(t.row1, b, p);
    let kz = lemma_row_between_corners(t.row2, b, p);
    let w = world_box(t, b);
    assert(w.contains(t.spec_point(corner(b, kx.0))));
    assert(w.contains(t.spec_point(corner(b, kx.1))));
    assert(w.contains(t.spec_point(corner(b, ky.0))));
    assert(w.contains(t.spec_point(corner(b, ky.1))));
    assert(w.contains(t.spec_point(corner(b, kz.0))));
    assert(w.contains(t.spec_point(corner(b, kz.1))));
}

} // verus!

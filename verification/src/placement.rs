//! Placements whose stored inverse undoes them exactly.

use vstd::prelude::*;
use crate::aabb::Aabb;
use crate::algebra::{
    lemma_mul3, lemma_mul_add, lemma_mul_add3, lemma_scale_order, lemma_term_between,
};
use crate::instance::{
    can_shift, corner, lemma_world_box_holds_corners, local_ray, shifted, unclamped, world_box,
    world_box_upto, BvhInstance,
};
use crate::ray::{cross, dot, ivec, IVec, Ray};
use crate::scene::{faithful_for, inside_scaled};
use crate::transform::{clamp32, det3, inv_entry, row_dot, Transform};
use crate::vec3::Vec3;

verus! {

/// Every component of the fixed-point row is a whole number.
pub open spec fn whole(row: Vec3) -> bool {
    row.x % 65536 == 0 && row.y % 65536 == 0 && row.z % 65536 == 0
}

/// The whole numbers that the components of a fixed-point row stand for.
pub open spec fn units(row: Vec3) -> IVec {
    IVec { x: row.x / 65536, y: row.y / 65536, z: row.z / 65536 }
}

/// The map `inv` undoes the map `t` exactly: both have whole numbers as
/// entries, the product of their matrices is the unit matrix, and `inv`
/// takes the translation of `t` back to the origin.
pub open spec fn undoes(inv: Transform, t: Transform) -> bool {
    let u0 = units(t.row0);
    let u1 = units(t.row1);
    let u2 = units(t.row2);
    let v0 = units(inv.row0);
    let v1 = units(inv.row1);
    let v2 = units(inv.row2);
    let s = ivec(t.translation);
    &&& whole(t.row0) && whole(t.row1) && whole(t.row2)
    &&& whole(inv.row0) && whole(inv.row1) && whole(inv.row2)
    &&& u0.x * v0.x + u0.y * v1.x + u0.z * v2.x == 1
    &&& u0.x * v0.y + u0.y * v1.y + u0.z * v2.y == 0
    &&& u0.x * v0.z + u0.y * v1.z + u0.z * v2.z == 0
    &&& u1.x * v0.x + u1.y * v1.x + u1.z * v2.x == 0
    &&& u1.x * v0.y + u1.y * v1.y + u1.z * v2.y == 1
    &&& u1.x * v0.z + u1.y * v1.z + u1.z * v2.z == 0
    &&& u2.x * v0.x + u2.y * v1.x + u2.z * v2.x == 0
    &&& u2.x * v0.y + u2.y * v1.y + u2.z * v2.y == 0
    &&& u2.x * v0.z + u2.y * v1.z + u2.z * v2.z == 1
    &&& inv.translation.x == -dot(v0, s)
    &&& inv.translation.y == -dot(v1, s)
    &&& inv.translation.z == -dot(v2, s)
}

/// The dot product of a whole row with a vector needs no rounding.
proof fn lemma_whole_row_dot(row: Vec3, p: Vec3)
    requires
        whole(row),
    ensures
        row_dot(row, p) == dot(units(row), ivec(p)),
{
    let u = units(row);
    assert(row.x == 65536 * u.x && row.y == 65536 * u.y && row.z == 65536 * u.z);
    lemma_mul3(65536, u.x, p.x as int);
    lemma_mul3(65536, u.y, p.y as int);
    lemma_mul3(65536, u.z, p.z as int);
    assert(row.x * p.x == 65536 * (u.x * p.x)) by (nonlinear_arith)
        requires
            row.x == 65536 * u.x,
    ;
    assert(row.y * p.y == 65536 * (u.y * p.y)) by (nonlinear_arith)
        requires
            row.y == 65536 * u.y,
    ;
    assert(row.z * p.z == 65536 * (u.z * p.z)) by (nonlinear_arith)
        requires
            row.z == 65536 * u.z,
    ;
}

/// The dot product with a scaled sum of vectors: `v . (k a + m b)` is
/// `k (v . a) + m (v . b)`.
proof fn lemma_dot_linear(v: IVec, a: IVec, b: IVec, k: int, m: int)
    ensures
        dot(v, IVec { x: k * a.x + m * b.x, y: k * a.y + m * b.y, z: k * a.z + m * b.z }) == k
            * dot(v, a) + m * dot(v, b),
{
    lemma_mul_add3(k, v.x * a.x, v.y * a.y, v.z * a.z);
    lemma_mul_add3(m, v.x * b.x, v.y * b.y, v.z * b.z);
    assert(v.x * (k * a.x + m * b.x) == k * (v.x * a.x) + m * (v.x * b.x)) by (nonlinear_arith);
    assert(v.y * (k * a.y + m * b.y) == k * (v.y * a.y) + m * (v.y * b.y)) by (nonlinear_arith);
    assert(v.z * (k * a.z + m * b.z) == k * (v.z * a.z) + m * (v.z * b.z)) by (nonlinear_arith);
}

/// A row of a matrix product applied to a vector: `u . (V w)` is `(u V) . w`.
proof fn lemma_row_of_product(u: IVec, v0: IVec, v1: IVec, v2: IVec, w: IVec)
    ensures
        u.x * dot(v0, w) + u.y * dot(v1, w) + u.z * dot(v2, w) == (u.x * v0.x + u.y * v1.x + u.z
            * v2.x) * w.x + (u.x * v0.y + u.y * v1.y + u.z * v2.y) * w.y + (u.x * v0.z + u.y * v1.z
            + u.z * v2.z) * w.z,
{
    lemma_mul_add3(u.x, v0.x * w.x, v0.y * w.y, v0.z * w.z);
    lemma_mul_add3(u.y, v1.x * w.x, v1.y * w.y, v1.z * w.z);
    lemma_mul_add3(u.z, v2.x * w.x, v2.y * w.y, v2.z * w.z);
    lemma_mul_add3(w.x, u.x * v0.x, u.y * v1.x, u.z * v2.x);
    lemma_mul_add3(w.y, u.x * v0.y, u.y * v1.y, u.z * v2.y);
    lemma_mul_add3(w.z, u.x * v0.z, u.y * v1.z, u.z * v2.z);
    lemma_mul3(u.x, v0.x, w.x);
    lemma_mul3(u.x, v0.y, w.y);
    lemma_mul3(u.x, v0.z, w.z);
    lemma_mul3(u.y, v1.x, w.x);
    lemma_mul3(u.y, v1.y, w.y);
    lemma_mul3(u.y, v1.z, w.z);
    lemma_mul3(u.z, v2.x, w.x);
    lemma_mul3(u.z, v2.y, w.y);
    lemma_mul3(u.z, v2.z, w.z);
}

/// Among the corners of a box there is one whose image under a whole row,
/// scaled by `det`, lies no higher, and one whose image lies no lower, than
/// the row applied to any vector between the scaled bounds of the box.
proof fn lemma_scaled_row_between_corners(row: Vec3, b: Aabb, y: IVec, det: int) -> (k: (int, int))
    requires
        whole(row),
        det > 0,
        det * b.bmin.x <= y.x <= det * b.bmax.x,
        det * b.bmin.y <= y.y <= det * b.bmax.y,
        det * b.bmin.z <= y.z <= det * b.bmax.z,
    ensures
        0 <= k.0 < 8,
        0 <= k.1 < 8,
        det * row_dot(row, corner(b, k.0)) <= dot(units(row), y) <= det * row_dot(
            row,
            corner(b, k.1),
        ),
{
    let u = units(row);
    let lo: int = (if u.x < 0 {
        1int
    } else {
        0int
    }) + (if u.y < 0 {
        2int
    } else {
        0int
    }) + (if u.z < 0 {
        4int
    } else {
        0int
    });
    let hi: int = 7 - lo;
    let cl = corner(b, lo);
    let ch = corner(b, hi);
    lemma_whole_row_dot(row, cl);
    lemma_whole_row_dot(row, ch);
    lemma_term_between(u.x, y.x, det * b.bmin.x, det * b.bmax.x);
    lemma_term_between(u.y, y.y, det * b.bmin.y, det * b.bmax.y);
    lemma_term_between(u.z, y.z, det * b.bmin.z, det * b.bmax.z);
    lemma_mul3(u.x, det, b.bmin.x as int);
    lemma_mul3(u.x, det, b.bmax.x as int);
    lemma_mul3(u.y, det, b.bmin.y as int);
    lemma_mul3(u.y, det, b.bmax.y as int);
    lemma_mul3(u.z, det, b.bmin.z as int);
    lemma_mul3(u.z, det, b.bmax.z as int);
    lemma_mul_add3(det, u.x * cl.x, u.y * cl.y, u.z * cl.z);
    lemma_mul_add3(det, u.x * ch.x, u.y * ch.y, u.z * ch.z);
    (lo, hi)
}

/// An instance whose stored inverse undoes its placement exactly is
/// faithful for every ray that the inverse takes into the mesh's space
/// without clamping, as long as no corner of the mesh's box is clamped on
/// its way into the world. Quarter turns, mirrorings and moves by whole or
/// fractional amounts are of this kind.
pub proof fn lemma_exact_placement_is_faithful(
    inst: BvhInstance,
    t: Transform,
    root: Aabb,
    ray: Ray,
)
    requires
        undoes(inst.inv_trans, t),
        inst.bounds == world_box(t, root),
        forall|k: int| 0 <= k < 8 ==> unclamped(t, #[trigger] corner(root, k)),
        unclamped(inst.inv_trans, ray.origin),
        i32::MIN <= row_dot(inst.inv_trans.row0, ray.direction) <= i32::MAX,
        i32::MIN <= row_dot(inst.inv_trans.row1, ray.direction) <= i32::MAX,
        i32::MIN <= row_dot(inst.inv_trans.row2, ray.direction) <= i32::MAX,
    ensures
        faithful_for(inst, root, ray),
{
    let inv = inst.inv_trans;
    let local = local_ray(ray, inv);
    let o = ray.origin;
    let d = ray.direction;
    let u0 = units(t.row0);
    let u1 = units(t.row1);
    let u2 = units(t.row2);
    let v0 = units(inv.row0);
    let v1 = units(inv.row1);
    let v2 = units(inv.row2);
    let s = ivec(t.translation);
    lemma_whole_row_dot(inv.row0, o);
    lemma_whole_row_dot(inv.row1, o);
    lemma_whole_row_dot(inv.row2, o);
    lemma_whole_row_dot(inv.row0, d);
    lemma_whole_row_dot(inv.row1, d);
    lemma_whole_row_dot(inv.row2, d);
    lemma_world_box_holds_corners(t, root, 8);
    assert forall|tn: int, det: int|
        det > 0 && #[trigger] inside_scaled(
            local.origin,
            local.direction,
            root,
            tn,
            det,
        ) implies inside_scaled(o, d, inst.bounds, tn, det) by {
        // Where the ray is at the distance, in the mesh's space and scaled by `det`.
        let y = IVec {
            x: det * local.origin.x + tn * local.direction.x,
            y: det * local.origin.y + tn * local.direction.y,
            z: det * local.origin.z + tn * local.direction.z,
        };
        // The same in the world, with the placement's move taken off.
        let w = IVec {
            x: det * (o.x - s.x) + tn * d.x,
            y: det * (o.y - s.y) + tn * d.y,
            z: det * (o.z - s.z) + tn * d.z,
        };
        let os = IVec { x: o.x - s.x, y: o.y - s.y, z: o.z - s.z };
        lemma_dot_linear(v0, os, ivec(d), det, tn);
        lemma_dot_linear(v1, os, ivec(d), det, tn);
        lemma_dot_linear(v2, os, ivec(d), det, tn);
        lemma_dot_linear(v0, ivec(o), s, 1, -1);
        lemma_dot_linear(v1, ivec(o), s, 1, -1);
        lemma_dot_linear(v2, ivec(o), s, 1, -1);
        assert(y.x == dot(v0, w) && y.y == dot(v1, w) && y.z == dot(v2, w));
        // The placement takes the one to the other.
        lemma_row_of_product(u0, v0, v1, v2, w);
        lemma_row_of_product(u1, v0, v1, v2, w);
        lemma_row_of_product(u2, v0, v1, v2, w);
        assert(dot(u0, y) == w.x && dot(u1, y) == w.y && dot(u2, y) == w.z);
        let kx = lemma_scaled_row_between_corners(t.row0, root, y, det);
        let ky = lemma_scaled_row_between_corners(t.row1, root, y, det);
        let kz = lemma_scaled_row_between_corners(t.row2, root, y, det);
        let wb = inst.bounds;
        assert(wb.contains(t.spec_point(corner(root, kx.0))));
        assert(wb.contains(t.spec_point(corner(root, kx.1))));
        assert(wb.contains(t.spec_point(corner(root, ky.0))));
        assert(wb.contains(t.spec_point(corner(root, ky.1))));
        assert(wb.contains(t.spec_point(corner(root, kz.0))));
        assert(wb.contains(t.spec_point(corner(root, kz.1))));
        assert(unclamped(t, corner(root, kx.0)));
        assert(unclamped(t, corner(root, kx.1)));
        assert(unclamped(t, corner(root, ky.0)));
        assert(unclamped(t, corner(root, ky.1)));
        assert(unclamped(t, corner(root, kz.0)));
        assert(unclamped(t, corner(root, kz.1)));
        lemma_bound_shift(det, wb.bmin.x as int, row_dot(t.row0, corner(root, kx.0)), s.x, w.x, o.x as int, tn, d.x as int, true);
        lemma_bound_shift(det, wb.bmax.x as int, row_dot(t.row0, corner(root, kx.1)), s.x, w.x, o.x as int, tn, d.x as int, false);
        lemma_bound_shift(det, wb.bmin.y as int, row_dot(t.row1, corner(root, ky.0)), s.y, w.y, o.y as int, tn, d.y as int, true);
        lemma_bound_shift(det, wb.bmax.y as int, row_dot(t.row1, corner(root, ky.1)), s.y, w.y, o.y as int, tn, d.y as int, false);
        lemma_bound_shift(det, wb.bmin.z as int, row_dot(t.row2, corner(root, kz.0)), s.z, w.z, o.z as int, tn, d.z as int, true);
        lemma_bound_shift(det, wb.bmax.z as int, row_dot(t.row2, corner(root, kz.1)), s.z, w.z, o.z as int, tn, d.z as int, false);
    }
}

/// From a bound on the image of a corner to a bound on the ray in the world.
proof fn lemma_bound_shift(
    det: int,
    bound: int,
    image: int,
    s: int,
    w: int,
    o: int,
    tn: int,
    d: int,
    lower: bool,
)
    requires
        det > 0,
        w == det * (o - s) + tn * d,
        lower ==> bound <= image + s && det * image <= w,
        !lower ==> bound >= image + s && det * image >= w,
    ensures
        lower ==> det * bound <= det * o + tn * d,
        !lower ==> det * bound >= det * o + tn * d,
{
    lemma_mul_add(det, o, s);
    assert(det * (image + s) == det * image + det * s) by (nonlinear_arith);
    if lower {
        assert(det * bound <= det * (image + s)) by (nonlinear_arith)
            requires
                det > 0,
                bound <= image + s,
        ;
    } else {
        assert(det * bound >= det * (image + s)) by (nonlinear_arith)
            requires
                det > 0,
                bound >= image + s,
        ;
    }
}

/// The inverse of a move by `s` is the move by `-s`.
pub proof fn lemma_inverse_of_move(s: Vec3)
    requires
        s.x > i32::MIN,
        s.y > i32::MIN,
        s.z > i32::MIN,
    ensures
        Transform::spec_from_translation(s).spec_inverse() == Transform::spec_from_translation(
            Vec3 { x: (-s.x) as i32, y: (-s.y) as i32, z: (-s.z) as i32 },
        ),
{
    let t = Transform::spec_from_translation(s);
    let one: int = 65536;
    assert(one * one == 0x1_0000_0000) by (nonlinear_arith)
        requires
            one == 65536,
    ;
    assert(one * 0x1_0000_0000 == 0x1_0000_0000_0000) by (nonlinear_arith)
        requires
            one == 65536,
    ;
    assert(t.spec_det() == 0x1_0000_0000_0000);
    assert(inv_entry(one, one, 0, 0, 0x1_0000_0000_0000) == 65536);
    assert(inv_entry(0, 0, 0, one, 0x1_0000_0000_0000) == 0);
    assert(inv_entry(0, one, 0, 0, 0x1_0000_0000_0000) == 0);
    assert(inv_entry(0, 0, 0, 0, 0x1_0000_0000_0000) == 0);
    let rows = t.spec_inverse_rows();
    assert(rows.0 == Vec3 { x: 65536, y: 0, z: 0 });
    assert(rows.1 == Vec3 { x: 0, y: 65536, z: 0 });
    assert(rows.2 == Vec3 { x: 0, y: 0, z: 65536 });
}


/// A move by `s` takes a box with something in it to the box moved by `s`.
pub proof fn lemma_world_box_of_move(s: Vec3, b: Aabb)
    requires
        b.bmin.le(b.bmax),
        can_shift(b, s),
    ensures
        world_box(Transform::spec_from_translation(s), b) == shifted(b, s),
{
    let t = Transform::spec_from_translation(s);
    reveal_with_fuel(world_box_upto, 9);
    assert forall|k: int| 0 <= k < 8 implies {
        let c = #[trigger] corner(b, k);
        t.spec_point(c) == (Vec3 {
            x: (c.x + s.x) as i32,
            y: (c.y + s.y) as i32,
            z: (c.z + s.z) as i32,
        })
    } by {}
    assert(corner(b, 0) == b.bmin);
    assert(corner(b, 7) == b.bmax);
}

/// An instance that only moves its mesh, by `s`, is faithful for every ray
/// whose origin can be moved back by `s` without leaving the range of the
/// coordinates.
pub proof fn lemma_moved_instance_is_faithful(inst: BvhInstance, s: Vec3, root: Aabb, ray: Ray)
    requires
        inst.inv_trans == Transform::spec_from_translation(s).spec_inverse(),
        inst.bounds == world_box(Transform::spec_from_translation(s), root),
        s.x > i32::MIN,
        s.y > i32::MIN,
        s.z > i32::MIN,
        root.bmin.le(root.bmax) ==> can_shift(root, s),
        i32::MIN <= ray.origin.x - s.x <= i32::MAX,
        i32::MIN <= ray.origin.y - s.y <= i32::MAX,
        i32::MIN <= ray.origin.z - s.z <= i32::MAX,
    ensures
        faithful_for(inst, root, ray),
{
    lemma_inverse_of_move(s);
    let local = local_ray(ray, inst.inv_trans);
    let o = ray.origin;
    let d = ray.direction;
    assert(local.origin.x == o.x - s.x && local.origin.y == o.y - s.y && local.origin.z == o.z
        - s.z);
    assert(local.direction == d);
    assert forall|tn: int, det: int|
        det > 0 && #[trigger] inside_scaled(
            local.origin,
            local.direction,
            root,
            tn,
            det,
        ) implies inside_scaled(o, d, inst.bounds, tn, det) by {
        lemma_scale_order(det, 0, 1);
        // A box that the ray is inside of has something in it.
        assert(root.bmin.le(root.bmax)) by {
            if root.bmin.x > root.bmax.x {
                lemma_scale_order(det, root.bmax.x + 1, root.bmin.x as int);
                lemma_mul_add(det, root.bmax.x as int, 1);
            }
            if root.bmin.y > root.bmax.y {
                lemma_scale_order(det, root.bmax.y + 1, root.bmin.y as int);
                lemma_mul_add(det, root.bmax.y as int, 1);
            }
            if root.bmin.z > root.bmax.z {
                lemma_scale_order(det, root.bmax.z + 1, root.bmin.z as int);
                lemma_mul_add(det, root.bmax.z as int, 1);
            }
        }
        lemma_world_box_of_move(s, root);
        lemma_mul_add(det, o.x as int, s.x as int);
        lemma_mul_add(det, o.y as int, s.y as int);
        lemma_mul_add(det, o.z as int, s.z as int);
        lemma_mul_add(det, root.bmin.x as int, s.x as int);
        lemma_mul_add(det, root.bmin.y as int, s.y as int);
        lemma_mul_add(det, root.bmin.z as int, s.z as int);
        lemma_mul_add(det, root.bmax.x as int, s.x as int);
        lemma_mul_add(det, root.bmax.y as int, s.y as int);
        lemma_mul_add(det, root.bmax.z as int, s.z as int);
    }
}


/// A vector is at right angles to its cross product with any other.
proof fn lemma_dot_cross_self(u: IVec, v: IVec)
    ensures
        dot(u, cross(u, v)) == 0,
        dot(u, cross(v, u)) == 0,
{
    lemma_mul_add(u.x, u.y * v.z, u.z * v.y);
    lemma_mul_add(u.y, u.z * v.x, u.x * v.z);
    lemma_mul_add(u.z, u.x * v.y, u.y * v.x);
    lemma_mul_add(u.x, v.y * u.z, v.z * u.y);
    lemma_mul_add(u.y, v.z * u.x, v.x * u.z);
    lemma_mul_add(u.z, v.x * u.y, v.y * u.x);
    lemma_mul3(u.x, u.y, v.z);
    lemma_mul3(u.x, u.z, v.y);
    lemma_mul3(u.y, u.z, v.x);
    lemma_mul3(u.y, u.x, v.z);
    lemma_mul3(u.z, u.x, v.y);
    lemma_mul3(u.z, u.y, v.x);
    lemma_mul3(u.x, v.y, u.z);
    lemma_mul3(u.x, v.z, u.y);
    lemma_mul3(u.y, v.z, u.x);
    lemma_mul3(u.y, v.x, u.z);
    lemma_mul3(u.z, v.x, u.y);
    lemma_mul3(u.z, v.y, u.x);
}

/// The triple product does not change when its three vectors change places in turn.
proof fn lemma_triple_cyclic(a: IVec, b: IVec, c: IVec)
    ensures
        dot(b, cross(c, a)) == dot(a, cross(b, c)),
        dot(c, cross(a, b)) == dot(a, cross(b, c)),
{
    lemma_mul_add(a.x, b.y * c.z, b.z * c.y);
    lemma_mul_add(a.y, b.z * c.x, b.x * c.z);
    lemma_mul_add(a.z, b.x * c.y, b.y * c.x);
    lemma_mul_add(b.x, c.y * a.z, c.z * a.y);
    lemma_mul_add(b.y, c.z * a.x, c.x * a.z);
    lemma_mul_add(b.z, c.x * a.y, c.y * a.x);
    lemma_mul_add(c.x, a.y * b.z, a.z * b.y);
    lemma_mul_add(c.y, a.z * b.x, a.x * b.z);
    lemma_mul_add(c.z, a.x * b.y, a.y * b.x);
    lemma_mul3(a.x, b.y, c.z);
    lemma_mul3(a.x, b.z, c.y);
    lemma_mul3(a.y, b.z, c.x);
    lemma_mul3(a.y, b.x, c.z);
    lemma_mul3(a.z, b.x, c.y);
    lemma_mul3(a.z, b.y, c.x);
    lemma_mul3(b.x, c.y, a.z);
    lemma_mul3(b.x, c.z, a.y);
    lemma_mul3(b.y, c.z, a.x);
    lemma_mul3(b.y, c.x, a.z);
    lemma_mul3(b.z, c.x, a.y);
    lemma_mul3(b.z, c.y, a.x);
    lemma_mul3(c.x, a.y, b.z);
    lemma_mul3(c.x, a.z, b.y);
    lemma_mul3(c.y, a.z, b.x);
    lemma_mul3(c.y, a.x, b.z);
    lemma_mul3(c.z, a.x, b.y);
    lemma_mul3(c.z, a.y, b.x);
}

/// The two-by-two determinant of whole fixed-point entries.
proof fn lemma_whole_minor(p: int, q: int, r: int, s: int)
    requires
        p % 65536 == 0,
        q % 65536 == 0,
        r % 65536 == 0,
        s % 65536 == 0,
    ensures
        p * q - r * s == 0x1_0000_0000 * ((p / 65536) * (q / 65536) - (r / 65536) * (s / 65536)),
{
    let up = p / 65536;
    let uq = q / 65536;
    let ur = r / 65536;
    let us = s / 65536;
    assert(p * q == 0x1_0000_0000 * (up * uq)) by (nonlinear_arith)
        requires
            p == 65536 * up,
            q == 65536 * uq,
    ;
    assert(r * s == 0x1_0000_0000 * (ur * us)) by (nonlinear_arith)
        requires
            r == 65536 * ur,
            s == 65536 * us,
    ;
}

/// One entry of the inverse of a whole map with determinant 1 or -1: the
/// cofactor of the whole numbers, with the sign of the determinant.
proof fn lemma_whole_entry(p: int, q: int, r: int, s: int, sign: int)
    requires
        p % 65536 == 0,
        q % 65536 == 0,
        r % 65536 == 0,
        s % 65536 == 0,
        sign == 1 || sign == -1,
    ensures
        fits_entry(p, q, r, s) ==> inv_entry(p, q, r, s, sign * 0x1_0000_0000_0000) == 65536 * (sign
            * ((p / 65536) * (q / 65536) - (r / 65536) * (s / 65536))),
{
    lemma_whole_minor(p, q, r, s);
    let cof = (p / 65536) * (q / 65536) - (r / 65536) * (s / 65536);
    let n = (p * q - r * s) * 0x1_0000_0000;
    assert(n == 0x1_0000_0000_0000_0000 * cof);
    if sign == 1 {
        assert(sign * cof == cof);
        assert(sign * 0x1_0000_0000_0000 == 0x1_0000_0000_0000);
        assert((0x1_0000_0000_0000_0000 * cof) / 0x1_0000_0000_0000 == 65536 * cof);
    } else {
        assert(sign * cof == -cof) by (nonlinear_arith)
            requires
                sign == -1,
        ;
        assert(sign * 0x1_0000_0000_0000 == -0x1_0000_0000_0000);
        assert((-(0x1_0000_0000_0000_0000 * cof)) / 0x1_0000_0000_0000 == 65536 * (-cof));
    }
}

/// The cofactor of the whole numbers fits a fixed-point entry.
pub open spec fn fits_entry(p: int, q: int, r: int, s: int) -> bool {
    -32767 <= (p / 65536) * (q / 65536) - (r / 65536) * (s / 65536) <= 32767
}

/// No entry of the inverse of the whole map is too large for a fixed-point entry.
pub open spec fn inverse_fits(t: Transform) -> bool {
    let a = t.row0;
    let b = t.row1;
    let c = t.row2;
    &&& fits_entry(b.y as int, c.z as int, b.z as int, c.y as int)
    &&& fits_entry(a.z as int, c.y as int, a.y as int, c.z as int)
    &&& fits_entry(a.y as int, b.z as int, a.z as int, b.y as int)
    &&& fits_entry(b.z as int, c.x as int, b.x as int, c.z as int)
    &&& fits_entry(a.x as int, c.z as int, a.z as int, c.x as int)
    &&& fits_entry(a.z as int, b.x as int, a.x as int, b.z as int)
    &&& fits_entry(b.x as int, c.y as int, b.y as int, c.x as int)
    &&& fits_entry(a.y as int, c.x as int, a.x as int, c.y as int)
    &&& fits_entry(a.x as int, b.y as int, a.y as int, b.x as int)
}

/// The determinant of a whole fixed-point map is that of its whole numbers,
/// scaled three times.
proof fn lemma_whole_det(a: Vec3, b: Vec3, c: Vec3)
    requires
        whole(a),
        whole(b),
        whole(c),
    ensures
        det3(a, b, c) == 0x1_0000_0000_0000 * dot(units(a), cross(units(b), units(c))),
{
    let ua = units(a);
    let ub = units(b);
    let uc = units(c);
    lemma_whole_minor(b.y as int, c.z as int, b.z as int, c.y as int);
    lemma_whole_minor(b.z as int, c.x as int, b.x as int, c.z as int);
    lemma_whole_minor(b.x as int, c.y as int, b.y as int, c.x as int);
    let mx = ub.y * uc.z - ub.z * uc.y;
    let my = ub.z * uc.x - ub.x * uc.z;
    let mz = ub.x * uc.y - ub.y * uc.x;
    assert(a.x * (0x1_0000_0000 * mx) == 0x1_0000_0000_0000 * (ua.x * mx)) by (nonlinear_arith)
        requires
            a.x == 65536 * ua.x,
    ;
    assert(a.y * (0x1_0000_0000 * my) == 0x1_0000_0000_0000 * (ua.y * my)) by (nonlinear_arith)
        requires
            a.y == 65536 * ua.y,
    ;
    assert(a.z * (0x1_0000_0000 * mz) == 0x1_0000_0000_0000 * (ua.z * mz)) by (nonlinear_arith)
        requires
            a.z == 65536 * ua.z,
    ;
}

/// The inverse that is computed for a whole map with determinant 1 or -1
/// undoes the map exactly, as long as its entries and its translation fit
/// the coordinates. Quarter turns and mirrorings are such maps.
pub proof fn lemma_inverse_undoes_whole_map(t: Transform)
    requires
        whole(t.row0),
        whole(t.row1),
        whole(t.row2),
        dot(units(t.row0), cross(units(t.row1), units(t.row2))) == 1 || dot(
            units(t.row0),
            cross(units(t.row1), units(t.row2)),
        ) == -1,
        inverse_fits(t),
        i32::MIN <= -row_dot(t.spec_inverse().row0, t.translation) <= i32::MAX,
        i32::MIN <= -row_dot(t.spec_inverse().row1, t.translation) <= i32::MAX,
        i32::MIN <= -row_dot(t.spec_inverse().row2, t.translation) <= i32::MAX,
    ensures
        undoes(t.spec_inverse(), t),
{
    let a = t.row0;
    let b = t.row1;
    let c = t.row2;
    let ua = units(a);
    let ub = units(b);
    let uc = units(c);
    let sign = dot(ua, cross(ub, uc));
    let inv = t.spec_inverse();
    lemma_whole_det(a, b, c);
    assert(t.spec_det() == sign * 0x1_0000_0000_0000);
    lemma_whole_entry(b.y as int, c.z as int, b.z as int, c.y as int, sign);
    lemma_whole_entry(a.z as int, c.y as int, a.y as int, c.z as int, sign);
    lemma_whole_entry(a.y as int, b.z as int, a.z as int, b.y as int, sign);
    lemma_whole_entry(b.z as int, c.x as int, b.x as int, c.z as int, sign);
    lemma_whole_entry(a.x as int, c.z as int, a.z as int, c.x as int, sign);
    lemma_whole_entry(a.z as int, b.x as int, a.x as int, b.z as int, sign);
    lemma_whole_entry(b.x as int, c.y as int, b.y as int, c.x as int, sign);
    lemma_whole_entry(a.y as int, c.x as int, a.x as int, c.y as int, sign);
    lemma_whole_entry(a.x as int, b.y as int, a.y as int, b.x as int, sign);
    let bc = cross(ub, uc);
    let ca = cross(uc, ua);
    let ab = cross(ua, ub);
    let v0 = units(inv.row0);
    let v1 = units(inv.row1);
    let v2 = units(inv.row2);
    assert(v0.x == sign * bc.x && v0.y == sign * ca.x && v0.z == sign * ab.x);
    assert(v1.x == sign * bc.y && v1.y == sign * ca.y && v1.z == sign * ab.y);
    assert(v2.x == sign * bc.z && v2.y == sign * ca.z && v2.z == sign * ab.z);
    lemma_whole_row_dot(inv.row0, t.translation);
    lemma_whole_row_dot(inv.row1, t.translation);
    lemma_whole_row_dot(inv.row2, t.translation);
    lemma_dot_cross_self(ua, ub);
    lemma_dot_cross_self(ua, uc);
    lemma_dot_cross_self(ub, uc);
    lemma_dot_cross_self(ub, ua);
    lemma_dot_cross_self(uc, ua);
    lemma_dot_cross_self(uc, ub);
    lemma_triple_cyclic(ua, ub, uc);
    lemma_signed_row(ua, bc, sign);
    lemma_signed_row(ua, ca, sign);
    lemma_signed_row(ua, ab, sign);
    lemma_signed_row(ub, bc, sign);
    lemma_signed_row(ub, ca, sign);
    lemma_signed_row(ub, ab, sign);
    lemma_signed_row(uc, bc, sign);
    lemma_signed_row(uc, ca, sign);
    lemma_signed_row(uc, ab, sign);
}

/// The dot product with a vector whose sign has been turned.
proof fn lemma_signed_row(u: IVec, w: IVec, sign: int)
    requires
        sign == 1 || sign == -1,
    ensures
        u.x * (sign * w.x) + u.y * (sign * w.y) + u.z * (sign * w.z) == sign * dot(u, w),
{
    lemma_mul3(u.x, sign, w.x);
    lemma_mul3(u.y, sign, w.y);
    lemma_mul3(u.z, sign, w.z);
    lemma_mul_add3(sign, u.x * w.x, u.y * w.y, u.z * w.z);
}

} // verus!

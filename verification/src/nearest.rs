//! Why the walk through a hierarchy finds the nearest triangle.

use vstd::prelude::*;
use crate::aabb::Aabb;
use crate::algebra::{
    lemma_div_bounded, lemma_floor_monotone, lemma_mul3, lemma_mul_add, lemma_mul_add3,
    lemma_mul_comm, lemma_mul_neg, lemma_mul_nonneg, lemma_negative_quotient,
};
use crate::bounds::{covers, holds_tri};
use crate::bvh::{all_of, Bvh};
use crate::members::{ids, lemma_ids_finite, lemma_ids_step};
use crate::ray::{
    box_enter, box_leave, cross, diff, dot, ivec, meet, slab_enter, slab_leave, tri_hit, Hit, IVec,
    Ray,
};
use crate::traverse::{after_leaf, after_node, farther};
use crate::tri::Tri;
use crate::vec3::Vec3;

verus! {

/// One component of `u x (v x w) = v (u . w) - w (u . v)`; the other two
/// follow by renaming the axes in turn.
proof fn lemma_triple_component(
    ux: int,
    uy: int,
    uz: int,
    vx: int,
    vy: int,
    vz: int,
    wx: int,
    wy: int,
    wz: int,
)
    ensures
        uy * (vx * wy - vy * wx) - uz * (vz * wx - vx * wz) == vx * (ux * wx + uy * wy + uz * wz)
            - wx * (ux * vx + uy * vy + uz * vz),
{
    lemma_mul_add(uy, vx * wy, vy * wx);
    lemma_mul_add(uz, vz * wx, vx * wz);
    lemma_mul_add3(vx, ux * wx, uy * wy, uz * wz);
    lemma_mul_add3(wx, ux * vx, uy * vy, uz * vz);
    lemma_mul3(uy, vx, wy);
    lemma_mul3(uy, vy, wx);
    lemma_mul3(uz, vz, wx);
    lemma_mul3(uz, vx, wz);
    lemma_mul3(vx, ux, wx);
}

/// `u x (v x w) = v (u . w) - w (u . v)`.
pub proof fn lemma_triple_product(u: IVec, v: IVec, w: IVec)
    ensures
        cross(u, cross(v, w)).x == v.x * dot(u, w) - w.x * dot(u, v),
        cross(u, cross(v, w)).y == v.y * dot(u, w) - w.y * dot(u, v),
        cross(u, cross(v, w)).z == v.z * dot(u, w) - w.z * dot(u, v),
{
    lemma_triple_component(u.x, u.y, u.z, v.x, v.y, v.z, w.x, w.y, w.z);
    lemma_triple_component(u.y, u.z, u.x, v.y, v.z, v.x, w.y, w.z, w.x);
    lemma_triple_component(u.z, u.x, u.y, v.z, v.x, v.y, w.z, w.x, w.y);
}


proof fn lemma_dot_comm(u: IVec, v: IVec)
    ensures
        dot(u, v) == dot(v, u),
{
    lemma_mul_comm(u.x, v.x);
    lemma_mul_comm(u.y, v.y);
    lemma_mul_comm(u.z, v.z);
}

proof fn lemma_cross_anti(u: IVec, v: IVec)
    ensures
        cross(u, v).x == -cross(v, u).x,
        cross(u, v).y == -cross(v, u).y,
        cross(u, v).z == -cross(v, u).z,
{
    lemma_mul_comm(u.y, v.z);
    lemma_mul_comm(u.z, v.y);
    lemma_mul_comm(u.z, v.x);
    lemma_mul_comm(u.x, v.z);
    lemma_mul_comm(u.x, v.y);
    lemma_mul_comm(u.y, v.x);
}

/// The identity behind the ray-triangle test. With `h = d x e2`, `q = s x e1`
/// and the four determinants `a = e1 . h`, `un = s . h`, `vn = d . q`,
/// `tn = e2 . q`, the vector `a s + tn d` is `un e1 + vn e2`: at distance
/// `tn / a` the ray from `s` along `d` is at the point with barycentric
/// coordinates `un / a` and `vn / a`.
pub proof fn lemma_meet_identity(e1: IVec, e2: IVec, d: IVec, s: IVec)
    ensures
        ({
            let h = cross(d, e2);
            let q = cross(s, e1);
            let a = dot(e1, h);
            let un = dot(s, h);
            let vn = dot(d, q);
            let tn = dot(e2, q);
            &&& a * s.x + tn * d.x == un * e1.x + vn * e2.x
            &&& a * s.y + tn * d.y == un * e1.y + vn * e2.y
            &&& a * s.z + tn * d.z == un * e1.z + vn * e2.z
        }),
{
    let h = cross(d, e2);
    let q = cross(s, e1);
    let a = dot(e1, h);
    let un = dot(s, h);
    let vn = dot(d, q);
    let tn = dot(e2, q);
    // h x q, once by way of q = s x e1 and once by way of h = d x e2.
    lemma_triple_product(h, s, e1);
    lemma_triple_product(q, d, e2);
    lemma_cross_anti(h, q);
    lemma_dot_comm(h, e1);
    lemma_dot_comm(h, s);
    lemma_dot_comm(q, e2);
    lemma_dot_comm(q, d);
    lemma_mul_comm(a, s.x);
    lemma_mul_comm(a, s.y);
    lemma_mul_comm(a, s.z);
    lemma_mul_comm(tn, d.x);
    lemma_mul_comm(tn, d.y);
    lemma_mul_comm(tn, d.z);
    lemma_mul_comm(un, e1.x);
    lemma_mul_comm(un, e1.y);
    lemma_mul_comm(un, e1.z);
    lemma_mul_comm(vn, e2.x);
    lemma_mul_comm(vn, e2.y);
    lemma_mul_comm(vn, e2.z);
}


/// A weighted mean of three coordinates lies between their bounds.
proof fn lemma_convex(det: int, un: int, vn: int, c0: int, c1: int, c2: int, lo: int, hi: int)
    requires
        0 <= un,
        0 <= vn,
        un + vn <= det,
        lo <= c0 <= hi,
        lo <= c1 <= hi,
        lo <= c2 <= hi,
    ensures
        det * lo <= det * c0 + un * (c1 - c0) + vn * (c2 - c0) <= det * hi,
{
    let w = det - un - vn;
    lemma_mul_nonneg(w, c0 - lo);
    lemma_mul_nonneg(un, c1 - lo);
    lemma_mul_nonneg(vn, c2 - lo);
    lemma_mul_nonneg(w, hi - c0);
    lemma_mul_nonneg(un, hi - c1);
    lemma_mul_nonneg(vn, hi - c2);
    lemma_mul_add(w, c0, lo);
    lemma_mul_add(un, c1, lo);
    lemma_mul_add(vn, c2, lo);
    lemma_mul_add(w, hi, c0);
    lemma_mul_add(un, hi, c1);
    lemma_mul_add(vn, hi, c2);
    lemma_mul_add(un, c1, c0);
    lemma_mul_add(vn, c2, c0);
    assert(w * c0 == det * c0 - un * c0 - vn * c0) by (nonlinear_arith)
        requires
            w == det - un - vn,
    ;
    assert(w * lo == det * lo - un * lo - vn * lo) by (nonlinear_arith)
        requires
            w == det - un - vn,
    ;
    assert(w * hi == det * hi - un * hi - vn * hi) by (nonlinear_arith)
        requires
            w == det - un - vn,
    ;
}

/// Where the ray meets the plane of a triangle inside the triangle, that
/// point lies in every box that holds the triangle: on each axis, `det`
/// times the box's bounds enclose `det` times the origin plus `tn` times the
/// direction.
pub proof fn lemma_meeting_point_in_box(o: Vec3, d: Vec3, tri: Tri, b: Aabb)
    requires
        holds_tri(b, tri),
        meet(o, d, tri).det > 0,
        0 <= meet(o, d, tri).un,
        0 <= meet(o, d, tri).vn,
        meet(o, d, tri).un + meet(o, d, tri).vn <= meet(o, d, tri).det,
    ensures
        ({
            let m = meet(o, d, tri);
            &&& m.det * b.bmin.x <= m.det * o.x + m.tn * d.x <= m.det * b.bmax.x
            &&& m.det * b.bmin.y <= m.det * o.y + m.tn * d.y <= m.det * b.bmax.y
            &&& m.det * b.bmin.z <= m.det * o.z + m.tn * d.z <= m.det * b.bmax.z
        }),
{
    let e1 = diff(tri.vertex1, tri.vertex0);
    let e2 = diff(tri.vertex2, tri.vertex0);
    let dv = ivec(d);
    let s = diff(o, tri.vertex0);
    let h = cross(dv, e2);
    let q = cross(s, e1);
    let a = dot(e1, h);
    let un0 = dot(s, h);
    let vn0 = dot(dv, q);
    let tn0 = dot(e2, q);
    let m = meet(o, d, tri);
    lemma_meet_identity(e1, e2, dv, s);
    // The identity holds of the determinants with their sign turned as well.
    assert(m.det * s.x + m.tn * dv.x == m.un * e1.x + m.vn * e2.x && m.det * s.y + m.tn * dv.y
        == m.un * e1.y + m.vn * e2.y && m.det * s.z + m.tn * dv.z == m.un * e1.z + m.vn * e2.z) by {
        if a < 0 {
            lemma_mul_neg(a, s.x);
            lemma_mul_neg(a, s.y);
            lemma_mul_neg(a, s.z);
            lemma_mul_neg(tn0, dv.x);
            lemma_mul_neg(tn0, dv.y);
            lemma_mul_neg(tn0, dv.z);
            lemma_mul_neg(un0, e1.x);
            lemma_mul_neg(un0, e1.y);
            lemma_mul_neg(un0, e1.z);
            lemma_mul_neg(vn0, e2.x);
            lemma_mul_neg(vn0, e2.y);
            lemma_mul_neg(vn0, e2.z);
        }
    }
    lemma_mul_add(m.det, o.x as int, tri.vertex0.x as int);
    lemma_mul_add(m.det, o.y as int, tri.vertex0.y as int);
    lemma_mul_add(m.det, o.z as int, tri.vertex0.z as int);
    lemma_convex(
        m.det,
        m.un,
        m.vn,
        tri.vertex0.x as int,
        tri.vertex1.x as int,
        tri.vertex2.x as int,
        b.bmin.x as int,
        b.bmax.x as int,
    );
    lemma_convex(
        m.det,
        m.un,
        m.vn,
        tri.vertex0.y as int,
        tri.vertex1.y as int,
        tri.vertex2.y as int,
        b.bmin.y as int,
        b.bmax.y as int,
    );
    lemma_convex(
        m.det,
        m.un,
        m.vn,
        tri.vertex0.z as int,
        tri.vertex1.z as int,
        tri.vertex2.z as int,
        b.bmin.z as int,
        b.bmax.z as int,
    );
}


/// On one axis: a distance `tn / det` at which the ray is within the stretch
/// `bmin ..= bmax` lies, rounded down, between the distances at which the
/// ray enters and leaves the stretch.
pub proof fn lemma_slab_admits(bmin: int, bmax: int, o: int, d: int, tn: int, det: int)
    requires
        det > 0,
        det * bmin <= det * o + tn * d <= det * bmax,
        d == 0 ==> i64::MIN <= (tn * 65536) / det <= i64::MAX,
    ensures
        slab_enter(bmin, bmax, o, d) <= (tn * 65536) / det <= slab_leave(bmin, bmax, o, d),
{
    lemma_mul_add(det, bmin, o);
    lemma_mul_add(det, bmax, o);
    lemma_mul_add(det, o, bmin);
    lemma_mul_add(det, o, bmax);
    if d > 0 {
        lemma_mul_comm(bmin - o, det);
        lemma_mul_comm(bmax - o, det);
        lemma_floor_monotone(bmin - o, d, tn, det);
        lemma_floor_monotone(tn, det, bmax - o, d);
    } else if d < 0 {
        lemma_mul_neg(d, tn);
        lemma_mul_comm(tn, d);
        lemma_mul_comm(tn, -d);
        lemma_mul_comm(o - bmax, det);
        lemma_mul_comm(o - bmin, det);
        lemma_floor_monotone(o - bmax, -d, tn, det);
        lemma_floor_monotone(tn, det, o - bmin, -d);
        assert(-((bmax - o) * 65536) == (o - bmax) * 65536);
        assert(-((bmin - o) * 65536) == (o - bmin) * 65536);
    } else {
        assert(tn * d == 0) by (nonlinear_arith)
            requires
                d == 0,
        ;
        assert(bmin <= o <= bmax) by (nonlinear_arith)
            requires
                det > 0,
                det * bmin <= det * o,
                det * o <= det * bmax,
        ;
    }
}


/// Where the ray moves along an axis, it enters and leaves a stretch of that
/// axis at distances that fit 50 bits.
proof fn lemma_slab_bounded(bmin: i32, bmax: i32, o: i32, d: i32)
    requires
        d != 0,
    ensures
        -0x2_0000_0000_0000 <= slab_enter(bmin as int, bmax as int, o as int, d as int)
            <= 0x2_0000_0000_0000,
        -0x2_0000_0000_0000 <= slab_leave(bmin as int, bmax as int, o as int, d as int)
            <= 0x2_0000_0000_0000,
{
    let b: int = 0x2_0000_0000_0000;
    if d > 0 {
        lemma_div_bounded((bmin - o) * 65536, d as int, b);
        lemma_div_bounded((bmax - o) * 65536, d as int, b);
    } else {
        lemma_div_bounded(-((bmin - o) * 65536), -(d as int), b);
        lemma_div_bounded(-((bmax - o) * 65536), -(d as int), b);
    }
}

/// A ray that does not move meets no triangle.
proof fn lemma_still_ray_meets_nothing(o: Vec3, d: Vec3, tri: Tri)
    requires
        d.x == 0,
        d.y == 0,
        d.z == 0,
    ensures
        meet(o, d, tri).det == 0,
{
    let e1 = diff(tri.vertex1, tri.vertex0);
    let e2 = diff(tri.vertex2, tri.vertex0);
    let h = cross(ivec(d), e2);
    assert(h.x == 0 && h.y == 0 && h.z == 0) by (nonlinear_arith)
        requires
            h.x == d.y * e2.z - d.z * e2.y,
            h.y == d.z * e2.x - d.x * e2.z,
            h.z == d.x * e2.y - d.y * e2.x,
            d.x == 0,
            d.y == 0,
            d.z == 0,
    ;
    assert(dot(e1, h) == 0) by (nonlinear_arith)
        requires
            h.x == 0 && h.y == 0 && h.z == 0,
    ;
}

/// The slab test never rejects a box that holds a triangle which the ray
/// hits: the distance of the hit lies between the distances at which the ray
/// enters and leaves the box.
pub proof fn lemma_box_admits_hit(o: Vec3, d: Vec3, tri: Tri, b: Aabb)
    requires
        holds_tri(b, tri),
        tri_hit(o, d, tri) is Some,
    ensures
        box_enter(o, d, b.bmin, b.bmax) <= (tri_hit(o, d, tri)->0).0 <= box_leave(
            o,
            d,
            b.bmin,
            b.bmax,
        ),
        0 < (tri_hit(o, d, tri)->0).0 <= i64::MAX,
{
    let m = meet(o, d, tri);
    let t = (m.tn * 65536) / m.det;
    lemma_meeting_point_in_box(o, d, tri, b);
    if d.x == 0 && d.y == 0 && d.z == 0 {
        lemma_still_ray_meets_nothing(o, d, tri);
    }
    // An axis along which the ray moves bounds the distance.
    if d.x != 0 {
        lemma_slab_admits(b.bmin.x as int, b.bmax.x as int, o.x as int, d.x as int, m.tn, m.det);
        lemma_slab_bounded(b.bmin.x, b.bmax.x, o.x, d.x);
    }
    if d.y != 0 {
        lemma_slab_admits(b.bmin.y as int, b.bmax.y as int, o.y as int, d.y as int, m.tn, m.det);
        lemma_slab_bounded(b.bmin.y, b.bmax.y, o.y, d.y);
    }
    if d.z != 0 {
        lemma_slab_admits(b.bmin.z as int, b.bmax.z as int, o.z as int, d.z as int, m.tn, m.det);
        lemma_slab_bounded(b.bmin.z, b.bmax.z, o.z, d.z);
    }
    assert(0 < t <= i64::MAX);
    lemma_slab_admits(b.bmin.x as int, b.bmax.x as int, o.x as int, d.x as int, m.tn, m.det);
    lemma_slab_admits(b.bmin.y as int, b.bmax.y as int, o.y as int, d.y as int, m.tn, m.det);
    lemma_slab_admits(b.bmin.z as int, b.bmax.z as int, o.z as int, d.z as int, m.tn, m.det);
}

/// The hit that the ray records when it takes the meeting `h` with triangle `i`.
pub open spec fn hit_of(h: (int, int, int), i: int, owner: u64) -> Hit {
    Hit { t: h.0 as i64, u: h.1 as i64, v: h.2 as i64, tri_index: i as usize, owner }
}

/// The ray `after` has taken its hit from triangle `i`: the triangle is hit
/// at the distance that `after` holds, nearer than `before` held.
pub open spec fn took(before: Ray, tris: Seq<Tri>, i: int, owner: u64, after: Ray) -> bool {
    match tri_hit(before.origin, before.direction, tris[i]) {
        Some(h) => h.0 == after.t && after.t < before.t && after.hit == Some(hit_of(h, i, owner)),
        None => false,
    }
}

/// No triangle numbered in `m` is hit nearer than the distance that the ray holds.
pub open spec fn none_nearer(ray: Ray, tris: Seq<Tri>, m: Set<int>) -> bool {
    forall|i: int| #[trigger]
        m.contains(i) ==> match tri_hit(ray.origin, ray.direction, tris[i]) {
            Some(h) => ray.t <= h.0,
            None => true,
        }
}

/// `after` is `before` after a search for the nearest hit among the
/// triangles numbered in `m`: none of them is hit nearer than the distance
/// of `after`, and `after` either is `before` unchanged or has taken a nearer
/// hit from one of them.
pub open spec fn nearest_among(
    before: Ray,
    tris: Seq<Tri>,
    m: Set<int>,
    owner: u64,
    after: Ray,
) -> bool {
    &&& after.origin == before.origin
    &&& after.direction == before.direction
    &&& after.t <= before.t
    &&& none_nearer(after, tris, m)
    &&& (after.t == before.t && after.hit == before.hit) || exists|i: int| #[trigger]
        m.contains(i) && took(before, tris, i, owner, after)
}

/// Testing one triangle is a search among that triangle alone.
proof fn lemma_one_triangle(ray: Ray, tris: Seq<Tri>, i: int, owner: u64)
    requires
        0 <= i <= usize::MAX,
    ensures
        nearest_among(
            ray,
            tris,
            Set::<int>::empty().insert(i),
            owner,
            ray.spec_intersect_triangle(tris[i], i as usize, owner),
        ),
{
    let m = Set::<int>::empty().insert(i);
    let after = ray.spec_intersect_triangle(tris[i], i as usize, owner);
    assert(m.contains(i));
    if after != ray {
        assert(took(ray, tris, i, owner, after));
    }
}

/// A search among `m1` followed by a search among `m2` is a search among both.
proof fn lemma_searches_compose(
    r0: Ray,
    r1: Ray,
    r2: Ray,
    tris: Seq<Tri>,
    m1: Set<int>,
    m2: Set<int>,
    owner: u64,
)
    requires
        nearest_among(r0, tris, m1, owner, r1),
        nearest_among(r1, tris, m2, owner, r2),
    ensures
        nearest_among(r0, tris, m1.union(m2), owner, r2),
{
    let m = m1.union(m2);
    assert forall|i: int| #[trigger] m.contains(i) implies match tri_hit(
        r2.origin,
        r2.direction,
        tris[i],
    ) {
        Some(h) => r2.t <= h.0,
        None => true,
    } by {
        if m1.contains(i) {
        } else {
            assert(m2.contains(i));
        }
    }
    if !(r2.t == r0.t && r2.hit == r0.hit) {
        if r2.t == r1.t && r2.hit == r1.hit {
            let i = choose|i: int| #[trigger] m1.contains(i) && took(r0, tris, i, owner, r1);
            assert(m.contains(i) && took(r0, tris, i, owner, r2));
        } else {
            let i = choose|i: int| #[trigger] m2.contains(i) && took(r1, tris, i, owner, r2);
            assert(m.contains(i) && took(r0, tris, i, owner, r2));
        }
    }
}

/// A ray that has got nearer since a search found nothing among `m` still
/// finds nothing among `m`.
proof fn lemma_nothing_to_find(r0: Ray, r1: Ray, tris: Seq<Tri>, m: Set<int>, owner: u64)
    requires
        none_nearer(r0, tris, m),
        r1.origin == r0.origin,
        r1.direction == r0.direction,
        r1.t <= r0.t,
    ensures
        nearest_among(r1, tris, m, owner, r1),
{
    assert forall|i: int| #[trigger] m.contains(i) implies match tri_hit(
        r1.origin,
        r1.direction,
        tris[i],
    ) {
        Some(h) => r1.t <= h.0,
        None => true,
    } by {}
}

/// A box that the slab test rejects holds no triangle that the ray hits
/// nearer than its best distance.
pub proof fn lemma_rejected_box_holds_nothing_nearer(
    ray: Ray,
    tris: Seq<Tri>,
    m: Set<int>,
    b: Aabb,
)
    requires
        covers(b, tris, m),
        ray.spec_intersect_aabb(b.bmin, b.bmax) is None,
    ensures
        none_nearer(ray, tris, m),
{
    assert forall|i: int| #[trigger] m.contains(i) implies match tri_hit(
        ray.origin,
        ray.direction,
        tris[i],
    ) {
        Some(h) => ray.t <= h.0,
        None => true,
    } by {
        if tri_hit(ray.origin, ray.direction, tris[i]) is Some {
            lemma_box_admits_hit(ray.origin, ray.direction, tris[i], b);
        }
    }
}

/// Testing the triangles of a leaf one after another is a search among them.
proof fn lemma_leaf_search(
    ray: Ray,
    tris: Seq<Tri>,
    idx: Seq<usize>,
    first: int,
    count: int,
    owner: u64,
)
    ensures
        nearest_among(
            ray,
            tris,
            ids(idx, first, count),
            owner,
            after_leaf(ray, tris, idx, first, count, owner),
        ),
    decreases count,
{
    lemma_ids_finite(idx, first, count);
    if count > 0 {
        let r1 = after_leaf(ray, tris, idx, first, count - 1, owner);
        let i = idx[first + count - 1];
        lemma_leaf_search(ray, tris, idx, first, count - 1, owner);
        lemma_one_triangle(r1, tris, i as int, owner);
        lemma_ids_step(idx, first, count - 1);
        let m1 = ids(idx, first, count - 1);
        let one = Set::<int>::empty().insert(i as int);
        lemma_searches_compose(
            ray,
            r1,
            after_leaf(ray, tris, idx, first, count, owner),
            tris,
            m1,
            one,
            owner,
        );
        assert(m1.union(one) =~= m1.insert(i as int));
    }
}

/// The walk through node `i` and all below it is a search among the
/// triangles below node `i`.
pub proof fn lemma_node_search(bvh: Bvh, ray: Ray, i: int, owner: u64)
    requires
        bvh.wf(),
        0 <= i < bvh.nodes@.len(),
    ensures
        nearest_among(ray, bvh.tris@, bvh.members(i), owner, after_node(bvh, ray, i, owner)),
    decreases bvh.nodes@.len() - i,
{
    let n = bvh.nodes@[i];
    let tris = bvh.tris@;
    assert(bvh.node_shaped(i));
    if n.tri_count > 0 {
        lemma_leaf_search(
            ray,
            tris,
            bvh.tri_indices@,
            n.left_first as int,
            n.tri_count as int,
            owner,
        );
    } else if n.left_first > 0 {
        let c1 = n.left_first as int;
        let c2 = c1 + 1;
        let m1 = bvh.members(c1);
        let m2 = bvh.members(c2);
        assert(bvh.node_wf(c1));
        assert(bvh.node_wf(c2));
        let d1 = ray.spec_intersect_aabb(bvh.nodes@[c1].aabb_min, bvh.nodes@[c1].aabb_max);
        let d2 = ray.spec_intersect_aabb(bvh.nodes@[c2].aabb_min, bvh.nodes@[c2].aabb_max);
        if d1 is None {
            lemma_rejected_box_holds_nothing_nearer(ray, tris, m1, bvh.nodes@[c1].aabb());
        }
        if d2 is None {
            lemma_rejected_box_holds_nothing_nearer(ray, tris, m2, bvh.nodes@[c2].aabb());
        }
        let swap = farther(d1, d2);
        let near = if swap {
            c2
        } else {
            c1
        };
        let far = if swap {
            c1
        } else {
            c2
        };
        let mnear = bvh.members(near);
        let mfar = bvh.members(far);
        let dnear = if swap {
            d2
        } else {
            d1
        };
        let dfar = if swap {
            d1
        } else {
            d2
        };
        assert(mnear.union(mfar) =~= bvh.members(i));
        if dnear is None {
            lemma_nothing_to_find(ray, ray, tris, mnear, owner);
            lemma_nothing_to_find(ray, ray, tris, mfar, owner);
            lemma_searches_compose(ray, ray, ray, tris, mnear, mfar, owner);
        } else {
            let r1 = after_node(bvh, ray, near, owner);
            lemma_node_search(bvh, ray, near, owner);
            if dfar is None {
                lemma_nothing_to_find(ray, r1, tris, mfar, owner);
                lemma_searches_compose(ray, r1, r1, tris, mnear, mfar, owner);
            } else {
                let r2 = after_node(bvh, r1, far, owner);
                lemma_node_search(bvh, r1, far, owner);
                lemma_searches_compose(ray, r1, r2, tris, mnear, mfar, owner);
            }
        }
    } else {
        assert(bvh.members(i) =~= Set::<int>::empty());
    }
}

/// The ray after it has been tested against the first `n` triangles, one
/// after another.
pub open spec fn after_each(ray: Ray, tris: Seq<Tri>, n: int, owner: u64) -> Ray
    decreases n,
{
    if n <= 0 {
        ray
    } else {
        after_each(ray, tris, n - 1, owner).spec_intersect_triangle(
            tris[n - 1],
            (n - 1) as usize,
            owner,
        )
    }
}

/// Testing every triangle in turn is a search among all of them.
pub proof fn lemma_each_is_search(ray: Ray, tris: Seq<Tri>, n: int, owner: u64)
    requires
        0 <= n <= usize::MAX,
    ensures
        nearest_among(ray, tris, all_of(n as nat), owner, after_each(ray, tris, n, owner)),
    decreases n,
{
    if n > 0 {
        let r1 = after_each(ray, tris, n - 1, owner);
        lemma_each_is_search(ray, tris, n - 1, owner);
        lemma_one_triangle(r1, tris, n - 1, owner);
        let one = Set::<int>::empty().insert(n - 1);
        lemma_searches_compose(
            ray,
            r1,
            after_each(ray, tris, n, owner),
            tris,
            all_of((n - 1) as nat),
            one,
            owner,
        );
        assert(all_of((n - 1) as nat).union(one) =~= all_of(n as nat));
    }
}

/// Two searches among the same triangles end at the same distance, and both
/// with a hit or both without a new one.
pub proof fn lemma_searches_agree(
    before: Ray,
    tris: Seq<Tri>,
    m: Set<int>,
    owner: u64,
    a: Ray,
    b: Ray,
)
    requires
        nearest_among(before, tris, m, owner, a),
        nearest_among(before, tris, m, owner, b),
    ensures
        a.t == b.t,
        a.t == before.t ==> a.hit == before.hit && b.hit == before.hit,
        a.t < before.t ==> exists|i: int, j: int|
            m.contains(i) && m.contains(j) && #[trigger] took(before, tris, i, owner, a)
                && #[trigger] took(before, tris, j, owner, b),
{
    if a.t < b.t {
        let i = choose|i: int| #[trigger] m.contains(i) && took(before, tris, i, owner, a);
        assert(m.contains(i));
    }
    if b.t < a.t {
        let j = choose|j: int| #[trigger] m.contains(j) && took(before, tris, j, owner, b);
        assert(m.contains(j));
    }
    if a.t < before.t {
        let i = choose|i: int| #[trigger] m.contains(i) && took(before, tris, i, owner, a);
        let j = choose|j: int| #[trigger] m.contains(j) && took(before, tris, j, owner, b);
        assert(m.contains(i) && m.contains(j) && took(before, tris, i, owner, a) && took(
            before,
            tris,
            j,
            owner,
            b,
        ));
    }
}

/// The walk through a well-formed hierarchy finds what testing every
/// triangle in turn finds: the same nearest distance, and a hit exactly when
/// the other has one, taken from a triangle that the ray hits at that
/// distance. Where several triangles are hit at the nearest distance, the
/// two may name different ones.
pub proof fn lemma_traversal_agrees_with_brute_force(bvh: Bvh, ray: Ray, owner: u64)
    requires
        bvh.wf(),
    ensures
        ({
            let walked = after_node(bvh, ray, 0, owner);
            let tested = after_each(ray, bvh.tris@, bvh.tris@.len() as int, owner);
            let all = all_of(bvh.tris@.len());
            &&& nearest_among(ray, bvh.tris@, all, owner, walked)
            &&& nearest_among(ray, bvh.tris@, all, owner, tested)
            &&& walked.t == tested.t
            &&& walked.t == ray.t ==> walked.hit == ray.hit && tested.hit == ray.hit
            &&& walked.t < ray.t ==> exists|i: int, j: int|
                all.contains(i) && all.contains(j) && #[trigger] took(
                    ray,
                    bvh.tris@,
                    i,
                    owner,
                    walked,
                ) && #[trigger] took(ray, bvh.tris@, j, owner, tested)
        }),
{
    lemma_node_search(bvh, ray, 0, owner);
    lemma_each_is_search(ray, bvh.tris@, bvh.tris@.len() as int, owner);
    lemma_searches_agree(
        ray,
        bvh.tris@,
        all_of(bvh.tris@.len()),
        owner,
        after_node(bvh, ray, 0, owner),
        after_each(ray, bvh.tris@, bvh.tris@.len() as int, owner),
    );
}


/// The ray starts outside the box on some axis and does not move towards
/// the box along that axis.
pub open spec fn points_away(o: Vec3, d: Vec3, bmin: Vec3, bmax: Vec3) -> bool {
    ||| o.x < bmin.x && d.x <= 0
    ||| o.x > bmax.x && d.x >= 0
    ||| o.y < bmin.y && d.y <= 0
    ||| o.y > bmax.y && d.y >= 0
    ||| o.z < bmin.z && d.z <= 0
    ||| o.z > bmax.z && d.z >= 0
}

/// On one axis: a ray that starts outside the stretch and does not move
/// towards it has left the stretch before it starts.
proof fn lemma_slab_left_behind(bmin: int, bmax: int, o: int, d: int)
    requires
        (o < bmin && d <= 0) || (o > bmax && d >= 0),
    ensures
        slab_leave(bmin, bmax, o, d) < 0,
{
    if d > 0 {
        lemma_negative_quotient((bmax - o) * 65536, d);
    } else if d < 0 {
        lemma_negative_quotient(-((bmin - o) * 65536), -d);
    }
}

/// The slab test rejects every box that the ray starts outside of and
/// points away from.
pub proof fn lemma_pointing_away_misses(ray: Ray, bmin: Vec3, bmax: Vec3)
    requires
        points_away(ray.origin, ray.direction, bmin, bmax),
    ensures
        ray.spec_intersect_aabb(bmin, bmax) is None,
{
    let o = ray.origin;
    let d = ray.direction;
    if (o.x < bmin.x && d.x <= 0) || (o.x > bmax.x && d.x >= 0) {
        lemma_slab_left_behind(bmin.x as int, bmax.x as int, o.x as int, d.x as int);
    } else if (o.y < bmin.y && d.y <= 0) || (o.y > bmax.y && d.y >= 0) {
        lemma_slab_left_behind(bmin.y as int, bmax.y as int, o.y as int, d.y as int);
    } else {
        lemma_slab_left_behind(bmin.z as int, bmax.z as int, o.z as int, d.z as int);
    }
}

/// At the fixed-point distance `t` the ray is inside the box, measured
/// without rounding: on each axis, origin plus `t` times direction lies
/// between the bounds.
pub open spec fn inside_at(o: Vec3, d: Vec3, bmin: Vec3, bmax: Vec3, t: int) -> bool {
    &&& 65536 * bmin.x <= 65536 * o.x + t * d.x <= 65536 * bmax.x
    &&& 65536 * bmin.y <= 65536 * o.y + t * d.y <= 65536 * bmax.y
    &&& 65536 * bmin.z <= 65536 * o.z + t * d.z <= 65536 * bmax.z
}

/// The slab test accepts every box that the ray is inside of at some
/// distance in front of its origin and before its best distance, and the
/// distance at which it says the box is entered is no greater than that one.
pub proof fn lemma_reached_box_is_entered(ray: Ray, bmin: Vec3, bmax: Vec3, t: int)
    requires
        0 < t < ray.t,
        inside_at(ray.origin, ray.direction, bmin, bmax, t),
    ensures
        ray.spec_intersect_aabb(bmin, bmax) is Some,
        ray.spec_intersect_aabb(bmin, bmax)->0 <= t,
{
    let o = ray.origin;
    let d = ray.direction;
    assert((t * 65536) / 65536 == t);
    lemma_slab_admits(bmin.x as int, bmax.x as int, o.x as int, d.x as int, t, 65536);
    lemma_slab_admits(bmin.y as int, bmax.y as int, o.y as int, d.y as int, t, 65536);
    lemma_slab_admits(bmin.z as int, bmax.z as int, o.z as int, d.z as int, t, 65536);
    if d.x != 0 {
        lemma_slab_bounded(bmin.x, bmax.x, o.x, d.x);
    }
    if d.y != 0 {
        lemma_slab_bounded(bmin.y, bmax.y, o.y, d.y);
    }
    if d.z != 0 {
        lemma_slab_bounded(bmin.z, bmax.z, o.z, d.z);
    }
}

} // verus!

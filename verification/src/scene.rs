//! Why the walk through a scene finds the nearest triangle of all instances.

use vstd::prelude::*;
use crate::aabb::Aabb;
use crate::algebra::lemma_scale_order;
use crate::bounds::holds_tri;
use crate::bvh::{all_of, lemma_root_holds_every_triangle, Bvh};
use crate::instance::{after_instance, local_ray, BvhInstance};
use crate::nearest::{
    hit_of, lemma_box_admits_hit, lemma_meeting_point_in_box, lemma_node_search,
    lemma_slab_admits, nearest_among, took,
};
use crate::ray::{meet, tri_hit, Ray};
use crate::tlas::{Tlas, TlasKind};
use crate::traverse::{after_tlas, after_tlas_node, farther};
use crate::vec3::Vec3;

verus! {

/// The mesh that instance `k` places.
pub open spec fn mesh_of(tlas: Tlas, k: int) -> Bvh {
    tlas.bvhs@[tlas.instances@[k].bvh_index as int]
}

/// Triangle `i` is one of the mesh of instance `k`.
pub open spec fn in_mesh(tlas: Tlas, k: int, i: int) -> bool {
    0 <= i < mesh_of(tlas, k).tris@.len()
}

/// The meeting of the ray, as instance `k` sees it, with triangle `i` of
/// the instance's mesh.
pub open spec fn scene_hit(tlas: Tlas, ray: Ray, k: int, i: int) -> Option<(int, int, int)> {
    let local = local_ray(ray, tlas.instances@[k].inv_trans);
    tri_hit(local.origin, local.direction, mesh_of(tlas, k).tris@[i])
}

/// The ray `after` has taken its hit from triangle `i` of instance `k`.
pub open spec fn scene_took(before: Ray, tlas: Tlas, k: int, i: int, after: Ray) -> bool {
    match scene_hit(tlas, before, k, i) {
        Some(h) => h.0 == after.t && after.t < before.t && after.hit == Some(
            hit_of(h, i, tlas.instances@[k].owner),
        ),
        None => false,
    }
}

/// No triangle of an instance numbered in `ks` is hit nearer than the
/// distance that the ray holds.
pub open spec fn scene_none_nearer(ray: Ray, tlas: Tlas, ks: Set<int>) -> bool {
    forall|k: int, i: int|
        ks.contains(k) && in_mesh(tlas, k, i) ==> match #[trigger] scene_hit(tlas, ray, k, i) {
            Some(h) => ray.t <= h.0,
            None => true,
        }
}

/// `after` is `before` after a search for the nearest hit among the
/// triangles of the instances numbered in `ks`.
pub open spec fn scene_nearest(before: Ray, tlas: Tlas, ks: Set<int>, after: Ray) -> bool {
    &&& after.origin == before.origin
    &&& after.direction == before.direction
    &&& after.t <= before.t
    &&& scene_none_nearer(after, tlas, ks)
    &&& (after.t == before.t && after.hit == before.hit) || exists|k: int, i: int|
        ks.contains(k) && in_mesh(tlas, k, i) && #[trigger] scene_took(before, tlas, k, i, after)
}

/// At the distance `tn / det` the ray is inside the box, measured without rounding.
pub open spec fn inside_scaled(o: Vec3, d: Vec3, b: Aabb, tn: int, det: int) -> bool {
    &&& det * b.bmin.x <= det * o.x + tn * d.x <= det * b.bmax.x
    &&& det * b.bmin.y <= det * o.y + tn * d.y <= det * b.bmax.y
    &&& det * b.bmin.z <= det * o.z + tn * d.z <= det * b.bmax.z
}

/// The placement `inst` of a mesh with the box `root` is faithful for the
/// ray: wherever the ray, as the instance sees it, is inside the mesh's box,
/// the ray itself is, at the same distance, inside the box that the
/// instance takes up in the world. Placements that only move the mesh are
/// faithful; so is any placement whose stored inverse undoes it exactly.
pub open spec fn faithful_for(inst: BvhInstance, root: Aabb, ray: Ray) -> bool {
    forall|tn: int, det: int|
        det > 0 && #[trigger] inside_scaled(
            local_ray(ray, inst.inv_trans).origin,
            local_ray(ray, inst.inv_trans).direction,
            root,
            tn,
            det,
        ) ==> inside_scaled(ray.origin, ray.direction, inst.bounds, tn, det)
}

/// What the agreement of the walk with the test of every instance rests on:
/// the tree is built, every mesh is well formed, and every placement is
/// faithful for the ray.
pub open spec fn scene_ready(tlas: Tlas, ray: Ray) -> bool {
    &&& tlas.built()
    &&& tlas.structured()
    &&& forall|k: int|
        0 <= k < tlas.instances@.len() ==> (#[trigger] mesh_of(tlas, k)).wf() && faithful_for(
            tlas.instances@[k],
            mesh_of(tlas, k).nodes@[0].aabb(),
            ray,
        )
}

/// Testing one instance is a search among the triangles of that instance.
proof fn lemma_one_instance(tlas: Tlas, ray: Ray, k: int)
    requires
        0 <= k < tlas.instances@.len(),
        mesh_of(tlas, k).wf(),
    ensures
        scene_nearest(
            ray,
            tlas,
            Set::<int>::empty().insert(k),
            after_instance(ray, tlas.instances@[k], tlas.bvhs@),
        ),
{
    let inst = tlas.instances@[k];
    let bvh = mesh_of(tlas, k);
    let local = local_ray(ray, inst.inv_trans);
    let found = crate::traverse::after_node(bvh, local, 0, inst.owner);
    let after = after_instance(ray, inst, tlas.bvhs@);
    let ks = Set::<int>::empty().insert(k);
    lemma_node_search(bvh, local, 0, inst.owner);
    let all = all_of(bvh.tris@.len());
    assert(nearest_among(local, bvh.tris@, all, inst.owner, found));
    assert forall|k2: int, i: int| ks.contains(k2) && in_mesh(tlas, k2, i) implies match #[trigger] scene_hit(
        tlas,
        after,
        k2,
        i,
    ) {
        Some(h) => after.t <= h.0,
        None => true,
    } by {
        assert(all.contains(i));
    }
    if !(after.t == ray.t && after.hit == ray.hit) {
        let i = choose|i: int| #[trigger] all.contains(i) && took(local, bvh.tris@, i, inst.owner, found);
        assert(ks.contains(k) && in_mesh(tlas, k, i) && scene_took(ray, tlas, k, i, after));
    }
}

/// A search among `k1` followed by a search among `k2` is a search among both.
proof fn lemma_scene_searches_compose(
    r0: Ray,
    r1: Ray,
    r2: Ray,
    tlas: Tlas,
    k1: Set<int>,
    k2: Set<int>,
)
    requires
        scene_nearest(r0, tlas, k1, r1),
        scene_nearest(r1, tlas, k2, r2),
    ensures
        scene_nearest(r0, tlas, k1.union(k2), r2),
{
    let ks = k1.union(k2);
    assert forall|k: int, i: int| ks.contains(k) && in_mesh(tlas, k, i) implies match #[trigger] scene_hit(
        tlas,
        r2,
        k,
        i,
    ) {
        Some(h) => r2.t <= h.0,
        None => true,
    } by {
        if k1.contains(k) {
            assert(scene_hit(tlas, r1, k, i) == scene_hit(tlas, r2, k, i));
        } else {
            assert(k2.contains(k));
        }
    }
    if !(r2.t == r0.t && r2.hit == r0.hit) {
        if r2.t == r1.t && r2.hit == r1.hit {
            let (k, i) = choose|k: int, i: int|
                k1.contains(k) && in_mesh(tlas, k, i) && #[trigger] scene_took(r0, tlas, k, i, r1);
            assert(ks.contains(k) && in_mesh(tlas, k, i) && scene_took(r0, tlas, k, i, r2));
        } else {
            let (k, i) = choose|k: int, i: int|
                k2.contains(k) && in_mesh(tlas, k, i) && #[trigger] scene_took(r1, tlas, k, i, r2);
            assert(scene_hit(tlas, r0, k, i) == scene_hit(tlas, r1, k, i));
            assert(ks.contains(k) && in_mesh(tlas, k, i) && scene_took(r0, tlas, k, i, r2));
        }
    }
}

/// A ray that has got nearer since a search found nothing among `ks` still
/// finds nothing among `ks`.
proof fn lemma_scene_nothing_to_find(r0: Ray, r1: Ray, tlas: Tlas, ks: Set<int>)
    requires
        scene_none_nearer(r0, tlas, ks),
        r1.origin == r0.origin,
        r1.direction == r0.direction,
        r1.t <= r0.t,
    ensures
        scene_nearest(r1, tlas, ks, r1),
{
    assert forall|k: int, i: int| ks.contains(k) && in_mesh(tlas, k, i) implies match #[trigger] scene_hit(
        tlas,
        r1,
        k,
        i,
    ) {
        Some(h) => r1.t <= h.0,
        None => true,
    } by {
        assert(scene_hit(tlas, r0, k, i) == scene_hit(tlas, r1, k, i));
    }
}

/// A ray that is inside a box at some distance is, at that distance, inside
/// every box that encloses it.
proof fn lemma_inside_enclosing(o: Vec3, d: Vec3, inner: Aabb, outer: Aabb, tn: int, det: int)
    requires
        det > 0,
        outer.encloses(inner),
        inside_scaled(o, d, inner, tn, det),
    ensures
        inside_scaled(o, d, outer, tn, det),
{
    lemma_scale_order(det, outer.bmin.x as int, inner.bmin.x as int);
    lemma_scale_order(det, outer.bmin.y as int, inner.bmin.y as int);
    lemma_scale_order(det, outer.bmin.z as int, inner.bmin.z as int);
    lemma_scale_order(det, inner.bmax.x as int, outer.bmax.x as int);
    lemma_scale_order(det, inner.bmax.y as int, outer.bmax.y as int);
    lemma_scale_order(det, inner.bmax.z as int, outer.bmax.z as int);
}

/// The box of every node of a built tree encloses the boxes of the
/// instances below the node.
proof fn lemma_node_encloses_instances(tlas: Tlas, i: int, k: int)
    requires
        tlas.built(),
        0 <= i < tlas.nodes@.len(),
        tlas.leaves_below(i).contains(k),
    ensures
        0 <= k < tlas.instances@.len(),
        tlas.nodes@[i].aabb().encloses(tlas.instances@[k].bounds),
    decreases tlas.rank(i),
{
    assert(tlas.node_wf(i));
    match tlas.nodes@[i].kind {
        TlasKind::Leaf { instance } => {},
        TlasKind::Interior { left, right } => {
            if tlas.leaves_below(left as int).contains(k) {
                lemma_node_encloses_instances(tlas, left as int, k);
            } else {
                lemma_node_encloses_instances(tlas, right as int, k);
            }
        },
    }
}

/// A box of the tree that the slab test rejects has no instance below it
/// with a triangle that the ray hits nearer than its best distance.
proof fn lemma_rejected_node_holds_nothing_nearer(tlas: Tlas, ray: Ray, i: int)
    requires
        scene_ready(tlas, ray),
        0 <= i < tlas.nodes@.len(),
        ray.spec_intersect_aabb(tlas.nodes@[i].aabb_min, tlas.nodes@[i].aabb_max) is None,
    ensures
        scene_none_nearer(ray, tlas, tlas.leaves_below(i)),
{
    let ks = tlas.leaves_below(i);
    let nb = tlas.nodes@[i].aabb();
    assert forall|k: int, j: int| ks.contains(k) && in_mesh(tlas, k, j) implies match #[trigger] scene_hit(
        tlas,
        ray,
        k,
        j,
    ) {
        Some(h) => ray.t <= h.0,
        None => true,
    } by {
        if scene_hit(tlas, ray, k, j) is Some {
            lemma_node_encloses_instances(tlas, i, k);
            let inst = tlas.instances@[k];
            let bvh = mesh_of(tlas, k);
            assert(bvh.wf());
            let root = bvh.nodes@[0].aabb();
            let local = local_ray(ray, inst.inv_trans);
            let tri = bvh.tris@[j];
            lemma_root_holds_every_triangle(bvh);
            assert(holds_tri(root, tri));
            let m = meet(local.origin, local.direction, tri);
            lemma_meeting_point_in_box(local.origin, local.direction, tri, root);
            lemma_box_admits_hit(local.origin, local.direction, tri, root);
            assert(inside_scaled(local.origin, local.direction, root, m.tn, m.det));
            assert(inside_scaled(ray.origin, ray.direction, inst.bounds, m.tn, m.det));
            lemma_inside_enclosing(ray.origin, ray.direction, inst.bounds, nb, m.tn, m.det);
            let o = ray.origin;
            let d = ray.direction;
            lemma_slab_admits(nb.bmin.x as int, nb.bmax.x as int, o.x as int, d.x as int, m.tn, m.det);
            lemma_slab_admits(nb.bmin.y as int, nb.bmax.y as int, o.y as int, d.y as int, m.tn, m.det);
            lemma_slab_admits(nb.bmin.z as int, nb.bmax.z as int, o.z as int, d.z as int, m.tn, m.det);
        }
    }
}

/// The walk through node `i` of the scene's tree and all below it is a
/// search among the triangles of the instances below node `i`.
pub proof fn lemma_tlas_node_search(tlas: Tlas, start: Ray, ray: Ray, i: int)
    requires
        scene_ready(tlas, start),
        ray.origin == start.origin,
        ray.direction == start.direction,
        0 <= i < tlas.nodes@.len(),
    ensures
        scene_nearest(ray, tlas, tlas.leaves_below(i), after_tlas_node(tlas, ray, i)),
    decreases tlas.rank(i),
{
    lemma_ready_for_same_line(tlas, start, ray);
    assert(tlas.node_wf(i));
    assert(tlas.node_shaped(i));
    match tlas.nodes@[i].kind {
        TlasKind::Leaf { instance } => {
            assert(mesh_of(tlas, instance as int).wf());
            lemma_one_instance(tlas, ray, instance as int);
        },
        TlasKind::Interior { left, right } => {
            let c1 = left as int;
            let c2 = right as int;
            let d1 = ray.spec_intersect_aabb(tlas.nodes@[c1].aabb_min, tlas.nodes@[c1].aabb_max);
            let d2 = ray.spec_intersect_aabb(tlas.nodes@[c2].aabb_min, tlas.nodes@[c2].aabb_max);
            if d1 is None {
                lemma_rejected_node_holds_nothing_nearer(tlas, ray, c1);
            }
            if d2 is None {
                lemma_rejected_node_holds_nothing_nearer(tlas, ray, c2);
            }
            let swap = farther(d1, d2);
            let near = if swap {
                c2
            } else {
                c1
            };
            let far = if swap {
                c1
            } else {
                c2
            };
            let dnear = if swap {
                d2
            } else {
                d1
            };
            let dfar = if swap {
                d1
            } else {
                d2
            };
            let knear = tlas.leaves_below(near);
            let kfar = tlas.leaves_below(far);
            assert(knear.union(kfar) =~= tlas.leaves_below(i));
            if dnear is None {
                lemma_scene_nothing_to_find(ray, ray, tlas, knear);
                lemma_scene_nothing_to_find(ray, ray, tlas, kfar);
                lemma_scene_searches_compose(ray, ray, ray, tlas, knear, kfar);
            } else {
                let r1 = after_tlas_node(tlas, ray, near);
                lemma_tlas_node_search(tlas, start, ray, near);
                if dfar is None {
                    lemma_scene_nothing_to_find(ray, r1, tlas, kfar);
                    lemma_scene_searches_compose(ray, r1, r1, tlas, knear, kfar);
                } else {
                    let r2 = after_tlas_node(tlas, r1, far);
                    lemma_tlas_node_search(tlas, start, r1, far);
                    lemma_scene_searches_compose(ray, r1, r2, tlas, knear, kfar);
                }
            }
        },
    }
}

/// A scene that is ready for a ray is ready for every ray along the same line.
proof fn lemma_ready_for_same_line(tlas: Tlas, start: Ray, ray: Ray)
    requires
        scene_ready(tlas, start),
        ray.origin == start.origin,
        ray.direction == start.direction,
    ensures
        scene_ready(tlas, ray),
{
    assert forall|k: int| 0 <= k < tlas.instances@.len() implies (#[trigger] mesh_of(tlas, k)).wf()
        && faithful_for(tlas.instances@[k], mesh_of(tlas, k).nodes@[0].aabb(), ray) by {
        let inst = tlas.instances@[k];
        let root = mesh_of(tlas, k).nodes@[0].aabb();
        assert(mesh_of(tlas, k).wf() && faithful_for(inst, root, start));
        assert(local_ray(ray, inst.inv_trans).origin == local_ray(start, inst.inv_trans).origin);
        assert(local_ray(ray, inst.inv_trans).direction == local_ray(
            start,
            inst.inv_trans,
        ).direction);
    }
}

/// The ray after it has been tested against the first `n` instances, one
/// after another.
pub open spec fn after_instances(tlas: Tlas, ray: Ray, n: int) -> Ray
    decreases n,
{
    if n <= 0 {
        ray
    } else {
        after_instance(after_instances(tlas, ray, n - 1), tlas.instances@[n - 1], tlas.bvhs@)
    }
}

/// Testing every instance in turn is a search among the triangles of all of them.
pub proof fn lemma_instances_are_search(tlas: Tlas, ray: Ray, n: int)
    requires
        0 <= n <= tlas.instances@.len(),
        forall|k: int| 0 <= k < tlas.instances@.len() ==> (#[trigger] mesh_of(tlas, k)).wf(),
    ensures
        scene_nearest(ray, tlas, all_of(n as nat), after_instances(tlas, ray, n)),
    decreases n,
{
    if n > 0 {
        let r1 = after_instances(tlas, ray, n - 1);
        lemma_instances_are_search(tlas, ray, n - 1);
        assert(mesh_of(tlas, n - 1).wf());
        lemma_one_instance(tlas, r1, n - 1);
        let one = Set::<int>::empty().insert(n - 1);
        lemma_scene_searches_compose(
            ray,
            r1,
            after_instances(tlas, ray, n),
            tlas,
            all_of((n - 1) as nat),
            one,
        );
        assert(all_of((n - 1) as nat).union(one) =~= all_of(n as nat));
    }
}

/// The walk through a built scene finds what testing every instance in turn
/// finds: the same nearest distance, and a hit exactly when the other has
/// one, taken from a triangle of an instance that the ray hits at that
/// distance. This holds where every mesh is well formed and every
/// placement is faithful for the ray.
pub proof fn lemma_scene_walk_agrees_with_every_instance(tlas: Tlas, ray: Ray)
    requires
        scene_ready(tlas, ray),
    ensures
        ({
            let walked = after_tlas(tlas, ray);
            let tested = after_instances(tlas, ray, tlas.instances@.len() as int);
            let all = all_of(tlas.instances@.len());
            &&& scene_nearest(ray, tlas, all, walked)
            &&& scene_nearest(ray, tlas, all, tested)
            &&& walked.t == tested.t
            &&& walked.t == ray.t ==> walked.hit == ray.hit && tested.hit == ray.hit
            &&& walked.t < ray.t ==> walked.hit is Some && tested.hit is Some && walked.hit->0.t
                == tested.hit->0.t
        }),
{
    let n = tlas.instances@.len();
    let all = all_of(n);
    let walked = after_tlas(tlas, ray);
    let tested = after_instances(tlas, ray, n as int);
    assert forall|k: int| 0 <= k < n implies (#[trigger] mesh_of(tlas, k)).wf() by {}
    lemma_instances_are_search(tlas, ray, n as int);
    if n == 0 {
        assert(scene_nearest(ray, tlas, all, walked));
    } else {
        lemma_tlas_node_search(tlas, ray, ray, 0);
    }
    if walked.t < tested.t {
        let (k, i) = choose|k: int, i: int|
            all.contains(k) && in_mesh(tlas, k, i) && #[trigger] scene_took(ray, tlas, k, i, walked);
        assert(scene_hit(tlas, tested, k, i) == scene_hit(tlas, ray, k, i));
    }
    if tested.t < walked.t {
        let (k, i) = choose|k: int, i: int|
            all.contains(k) && in_mesh(tlas, k, i) && #[trigger] scene_took(ray, tlas, k, i, tested);
        assert(scene_hit(tlas, walked, k, i) == scene_hit(tlas, ray, k, i));
    }
}

} // verus!

use rand::SeedableRng;
use rand_chacha::ChaCha20Rng;
use sah_bvh::aabb::Aabb;
use sah_bvh::assets::{build_random_tri_scene, drawn_triangle, gen_random_triangles};
use sah_bvh::bvh::Bvh;
use sah_bvh::instance::BvhInstance;
use sah_bvh::ray::{Hit, Ray};
use sah_bvh::tlas::{Tlas, TlasKind, TlasNode};
use sah_bvh::transform::Transform;
use sah_bvh::tri::Tri;
use sah_bvh::vec3::{Vec3, ONE};

fn v(x: i32, y: i32, z: i32) -> Vec3 {
    Vec3::new(x, y, z)
}

/// A square wall in the plane x = 0, facing along x.
fn wall() -> Vec<Tri> {
    let a = v(0, -ONE, -ONE);
    let b = v(0, ONE, -ONE);
    let c = v(0, ONE, ONE);
    let d = v(0, -ONE, ONE);
    vec![Tri::new(a, b, c), Tri::new(a, c, d)]
}

fn next(state: &mut u64) -> u32 {
    *state = state.wrapping_mul(6364136223846793005).wrapping_add(1442695040888963407);
    (*state >> 33) as u32
}

fn coord(state: &mut u64, span: i32) -> i32 {
    (next(state) % (2 * span as u32 + 1)) as i32 - span
}

fn scattered_scene(seed: u64, count: usize) -> Tlas {
    let mut s = seed;
    let mut tlas = Tlas::default();
    let mesh = tlas.add_bvh(Bvh::new(wall()));
    let mut moves = Vec::new();
    for k in 0..count {
        tlas.add_instance(BvhInstance::new(k as u64, mesh));
        let t = v(coord(&mut s, 40 * ONE), coord(&mut s, 40 * ONE), coord(&mut s, 40 * ONE));
        moves.push((k as u64, Transform::from_translation(t)));
    }
    tlas.update_bvh(&moves);
    tlas.build();
    tlas
}

fn leaves_below(tlas: &Tlas, i: usize, out: &mut Vec<usize>) {
    match tlas.nodes[i].kind {
        TlasKind::Leaf { instance } => out.push(instance),
        TlasKind::Interior { left, right } => {
            let l = tlas.nodes[left];
            let r = tlas.nodes[right];
            let n = tlas.nodes[i];
            assert_eq!(n.aabb_min, l.aabb_min.min(r.aabb_min));
            assert_eq!(n.aabb_max, l.aabb_max.max(r.aabb_max));
            leaves_below(tlas, left, out);
            leaves_below(tlas, right, out);
        }
    }
}

#[test]
fn scene_without_instances_has_no_node_and_no_hit() {
    let mut tlas = Tlas::default();
    tlas.build();
    assert_eq!(tlas.nodes.len(), 0);
    let mut ray = Ray::new(v(0, 0, 0), v(ONE, 0, 0));
    assert_eq!(ray.intersect_tlas(&tlas), None);
    assert_eq!(ray.hit, None);
}

#[test]
fn scene_of_one_instance_is_one_leaf() {
    let tlas = scattered_scene(3, 1);
    assert_eq!(tlas.nodes.len(), 1);
    assert_eq!(tlas.nodes[0].kind, TlasKind::Leaf { instance: 0 });
    assert!(tlas.nodes[0].is_leaf());
    assert_eq!(tlas.nodes[0].aabb_min, tlas.instances[0].bounds.bmin);
    assert_eq!(tlas.nodes[0].aabb_max, tlas.instances[0].bounds.bmax);
}

#[test]
fn scene_of_n_instances_has_2n_minus_1_nodes() {
    for n in 1..40usize {
        let tlas = scattered_scene(n as u64, n);
        assert_eq!(tlas.nodes.len(), 2 * n - 1);
        let mut found = Vec::new();
        leaves_below(&tlas, 0, &mut found);
        found.sort();
        assert_eq!(found, (0..n).collect::<Vec<_>>());
        if n >= 2 {
            assert!(!tlas.nodes[0].is_leaf());
            for k in 0..n {
                assert_eq!(tlas.nodes[k + 1].kind, TlasKind::Leaf { instance: k });
            }
        }
    }
}

#[test]
fn two_instances_are_merged_in_order() {
    let tlas = scattered_scene(5, 2);
    assert_eq!(tlas.nodes[0].kind, TlasKind::Interior { left: 1, right: 2 });
}

#[test]
fn rebuilding_gives_the_same_tree() {
    let mut tlas = scattered_scene(8, 17);
    let before: Vec<(Vec3, Vec3, TlasKind)> =
        tlas.nodes.iter().map(|n| (n.aabb_min, n.aabb_max, n.kind)).collect();
    tlas.build();
    let after: Vec<(Vec3, Vec3, TlasKind)> =
        tlas.nodes.iter().map(|n| (n.aabb_min, n.aabb_max, n.kind)).collect();
    assert_eq!(before, after);
}

#[test]
fn best_match_is_the_first_least_union() {
    let node = |lo: i32, hi: i32| TlasNode {
        aabb_min: v(lo, 0, 0),
        aabb_max: v(hi, 1, 1),
        kind: TlasKind::Leaf { instance: 0 },
    };
    let tlas = Tlas {
        nodes: vec![node(0, 1), node(10, 11), node(3, 4), node(-3, -2), node(50, 60)],
        instances: Vec::new(),
        bvhs: Vec::new(),
    };
    let list = vec![0, 1, 2, 3, 4];
    // Around node 0: node 2 and node 3 both give a box of length 4; node 2 comes first.
    assert_eq!(tlas.find_best_match(&list, 5, 0), Some(2));
    assert_eq!(tlas.find_best_match(&list, 5, 1), Some(2));
    assert_eq!(tlas.find_best_match(&list, 5, 4), Some(1));
    // Only the first n entries are looked at.
    assert_eq!(tlas.find_best_match(&list, 2, 0), Some(1));
    assert_eq!(tlas.find_best_match(&list, 1, 0), None);
    assert_eq!(tlas.find_best_match(&list, 0, 0), None);
    // The list may name the nodes in any order.
    let list = vec![4, 3, 0];
    assert_eq!(tlas.find_best_match(&list, 3, 2), Some(1));
}

#[test]
fn scene_query_agrees_with_testing_every_instance() {
    let mut s = 4242u64;
    for n in [1usize, 2, 3, 10, 60] {
        let tlas = scattered_scene(n as u64 + 100, n);
        let mut hits = 0;
        for _ in 0..300 {
            let o = v(coord(&mut s, 50 * ONE), coord(&mut s, 50 * ONE), coord(&mut s, 50 * ONE));
            // Aim near the middle of one of the walls.
            let at = tlas.instances[next(&mut s) as usize % n].bounds;
            let d = v(
                (at.bmin.x - o.x) / 64 + coord(&mut s, ONE / 64),
                (at.bmin.y + ONE - o.y) / 64 + coord(&mut s, ONE / 64),
                (at.bmin.z + ONE - o.z) / 64 + coord(&mut s, ONE / 64),
            );
            let mut a = Ray::new(o, d);
            let mut b = Ray::new(o, d);
            let found = a.intersect_tlas(&tlas);
            for inst in &tlas.instances {
                b.intersect_bvh_instance(inst, &tlas.bvhs);
            }
            assert_eq!(found, a.hit);
            assert_eq!(a.t, b.t);
            assert_eq!(a.hit.map(|h| h.t), b.hit.map(|h| h.t));
            assert_eq!(a.origin, o);
            assert_eq!(a.direction, d);
            if let Some(h) = a.hit {
                hits += 1;
                let mut probe = Ray::new(o, d);
                tlas.instances[h.owner as usize].intersect(&mut probe, &tlas.bvhs);
                assert_eq!(probe.hit.map(|p| p.t), Some(h.t));
            }
        }
        assert!(hits > 0);
    }
}

#[test]
fn world_box_shifts_with_the_translation() {
    let bvh = Bvh::new(wall());
    let root = bvh.nodes[0];
    let turn = Transform {
        row0: v(0, -ONE, 0),
        row1: v(ONE, 0, 0),
        row2: v(0, 0, ONE),
        translation: v(7, 8, 9),
    };
    let shift = v(5 * ONE, -3, 11);
    let moved = Transform {
        translation: v(7 + shift.x, 8 + shift.y, 9 + shift.z),
        ..turn
    };
    let mut a = BvhInstance::new(1, 0);
    let mut b = BvhInstance::new(1, 0);
    a.update(&turn, &root);
    b.update(&moved, &root);
    assert_eq!(b.bounds.bmin, v(a.bounds.bmin.x + shift.x, a.bounds.bmin.y + shift.y, a.bounds.bmin.z + shift.z));
    assert_eq!(b.bounds.bmax, v(a.bounds.bmax.x + shift.x, a.bounds.bmax.y + shift.y, a.bounds.bmax.z + shift.z));
    // The wall lies in x = 0 and reaches 1 along y and z; turned, it lies in y = 0.
    assert_eq!(a.bounds, Aabb { bmin: v(-ONE + 7, 8, -ONE + 9), bmax: v(ONE + 7, 8, ONE + 9) });
}

#[test]
fn world_box_holds_the_turned_box() {
    // A turn by about 30 degrees about z: cos = 0.866, sin = 0.5.
    let c = 56756;
    let s = ONE / 2;
    let turn = Transform { row0: v(c, -s, 0), row1: v(s, c, 0), row2: v(0, 0, ONE), translation: v(0, 0, 0) };
    let root = sah_bvh::bvh::BvhNode {
        aabb_min: v(-3 * ONE, -ONE, -2 * ONE),
        aabb_max: v(4 * ONE, 2 * ONE, 5 * ONE),
        left_first: 0,
        tri_count: 1,
    };
    let mut inst = BvhInstance::new(0, 0);
    inst.update(&turn, &root);
    let mut st = 77u64;
    for _ in 0..2000 {
        let p = v(
            -3 * ONE + (next(&mut st) % (7 * ONE as u32 + 1)) as i32,
            -ONE + (next(&mut st) % (3 * ONE as u32 + 1)) as i32,
            -2 * ONE + (next(&mut st) % (7 * ONE as u32 + 1)) as i32,
        );
        let q = turn.transform_point3(p);
        assert!(inst.bounds.bmin.x <= q.x && q.x <= inst.bounds.bmax.x);
        assert!(inst.bounds.bmin.y <= q.y && q.y <= inst.bounds.bmax.y);
        assert!(inst.bounds.bmin.z <= q.z && q.z <= inst.bounds.bmax.z);
    }
    let local = Aabb { bmin: root.aabb_min, bmax: root.aabb_max };
    assert!(inst.bounds.area() >= local.area());
}

#[test]
fn moving_an_instance_moves_the_hit() {
    let mut tlas = Tlas::default();
    let mesh = tlas.add_bvh(Bvh::new(wall()));
    tlas.add_instance(BvhInstance::new(42, mesh));
    let origin = v(-10 * ONE, ONE / 4, ONE / 4);
    let direction = v(ONE, 0, 0);
    let place = |h: Hit| {
        v(
            origin.x + ((h.t * direction.x as i64) >> 16) as i32,
            origin.y + ((h.t * direction.y as i64) >> 16) as i32,
            origin.z + ((h.t * direction.z as i64) >> 16) as i32,
        )
    };

    tlas.update_bvh(&vec![(42, Transform::identity())]);
    tlas.build();
    let mut ray = Ray::new(origin, direction);
    let first = ray.intersect_tlas(&tlas).expect("the wall is hit");
    assert_eq!(first.owner, 42);
    assert_eq!(place(first), v(0, ONE / 4, ONE / 4));

    tlas.update_bvh(&vec![(42, Transform::from_translation(v(5 * ONE, 0, 0)))]);
    tlas.build();
    let mut ray = Ray::new(origin, direction);
    let second = ray.intersect_tlas(&tlas).expect("the wall is hit");
    let p = place(first);
    let q = place(second);
    assert_eq!(q, v(p.x + 5 * ONE, p.y, p.z));
    assert_eq!(second.t, first.t + 5 * ONE as i64);
    assert_eq!((second.u, second.v, second.tri_index), (first.u, first.v, first.tri_index));
}

#[test]
fn update_takes_the_first_map_of_the_owner() {
    let mut tlas = Tlas::default();
    let mesh = tlas.add_bvh(Bvh::new(wall()));
    tlas.add_instance(BvhInstance::new(1, mesh));
    tlas.add_instance(BvhInstance::new(2, mesh));
    tlas.add_instance(BvhInstance::new(3, mesh));
    let untouched = tlas.instances[2];
    tlas.update_bvh(&vec![
        (2, Transform::from_translation(v(10, 0, 0))),
        (1, Transform::from_translation(v(20, 0, 0))),
        (2, Transform::from_translation(v(30, 0, 0))),
    ]);
    assert_eq!(tlas.instances[0].inv_trans.translation, v(-20, 0, 0));
    assert_eq!(tlas.instances[1].inv_trans.translation, v(-10, 0, 0));
    assert_eq!(tlas.instances[0].bounds, Aabb { bmin: v(20, -ONE, -ONE), bmax: v(20, ONE, ONE) });
    assert_eq!(tlas.instances[1].bounds, Aabb { bmin: v(10, -ONE, -ONE), bmax: v(10, ONE, ONE) });
    assert_eq!(tlas.instances[2].bounds, untouched.bounds);
    assert_eq!(tlas.instances[2].inv_trans, untouched.inv_trans);
    assert_eq!(tlas.instances[2].bounds, Aabb::default());
    assert_eq!(tlas.nodes.len(), 0);
}

#[test]
fn add_bvh_returns_running_numbers() {
    let mut tlas = Tlas::default();
    assert_eq!(tlas.add_bvh(Bvh::new(wall())), 0);
    assert_eq!(tlas.add_bvh(Bvh::new(Vec::new())), 1);
    assert_eq!(tlas.add_bvh(Bvh::new(wall())), 2);
    assert_eq!(tlas.bvhs.len(), 3);
    assert_eq!(tlas.bvhs[1].tris.len(), 0);
}

#[test]
fn instance_of_an_empty_mesh_is_never_hit() {
    let mut tlas = Tlas::default();
    let empty = tlas.add_bvh(Bvh::new(Vec::new()));
    let mesh = tlas.add_bvh(Bvh::new(wall()));
    tlas.add_instance(BvhInstance::new(1, empty));
    tlas.add_instance(BvhInstance::new(2, mesh));
    tlas.update_bvh(&vec![(1, Transform::identity()), (2, Transform::from_translation(v(3 * ONE, 0, 0)))]);
    tlas.build();
    assert_eq!(tlas.nodes.len(), 3);
    let mut ray = Ray::new(v(-ONE, 0, 0), v(ONE, 0, 0));
    let hit = ray.intersect_tlas(&tlas).expect("the wall is hit");
    assert_eq!(hit.owner, 2);
    assert_eq!(hit.t, 4 * ONE as i64);
}

#[test]
fn drawn_triangle_scales_the_first_corner() {
    let t = drawn_triangle(v(ONE / 2, -ONE, 3), v(1, 2, 3), v(-4, -5, -6), 4 * ONE);
    assert_eq!(t.vertex0, v(2 * ONE, -4 * ONE, 12));
    assert_eq!(t.vertex1, v(2 * ONE + 1, -4 * ONE + 2, 15));
    assert_eq!(t.vertex2, v(2 * ONE - 4, -4 * ONE - 5, 6));
    assert_eq!(t.centroid, Tri::new(t.vertex0, t.vertex1, t.vertex2).centroid);
    // Products are rounded down.
    let t = drawn_triangle(v(-1, 1, 0), v(0, 0, 0), v(0, 0, 0), ONE / 2);
    assert_eq!(t.vertex0, v(-1, 0, 0));
}

#[test]
fn random_triangles_lie_within_the_scale() {
    let mut rng = ChaCha20Rng::seed_from_u64(7);
    let tris = gen_random_triangles(500, 4 * ONE, &mut rng);
    assert_eq!(tris.len(), 500);
    let mut distinct = false;
    for t in &tris {
        for c in [t.vertex0.x, t.vertex0.y, t.vertex0.z] {
            assert!(-4 * ONE <= c && c <= 4 * ONE);
        }
        for (a, b) in [(t.vertex1, t.vertex0), (t.vertex2, t.vertex0)] {
            assert!((a.x - b.x).abs() <= ONE && (a.y - b.y).abs() <= ONE && (a.z - b.z).abs() <= ONE);
        }
        assert_eq!(t.centroid, Tri::new(t.vertex0, t.vertex1, t.vertex2).centroid);
        if *t != tris[0] {
            distinct = true;
        }
    }
    assert!(distinct);
    // Not every draw is the least or the greatest of its range.
    assert!(tris.iter().any(|t| t.vertex1.x - t.vertex0.x != -ONE && t.vertex1.x - t.vertex0.x != ONE));
    assert!(tris.iter().any(|t| t.vertex1.x > t.vertex0.x));
    assert!(tris.iter().any(|t| t.vertex1.x < t.vertex0.x));
}

#[test]
fn random_triangles_repeat_with_the_seed() {
    let mut a = ChaCha20Rng::seed_from_u64(3);
    let mut b = ChaCha20Rng::seed_from_u64(3);
    let mut c = ChaCha20Rng::seed_from_u64(4);
    let x = gen_random_triangles(50, ONE, &mut a);
    let y = gen_random_triangles(50, ONE, &mut b);
    let z = gen_random_triangles(50, ONE, &mut c);
    assert_eq!(x, y);
    assert_ne!(x, z);
    assert_eq!(gen_random_triangles(0, ONE, &mut a).len(), 0);
}

fn cast_grid(tlas: &Tlas) -> Vec<Option<Hit>> {
    let mut out = Vec::with_capacity(256 * 256);
    for y in 0..256i32 {
        for x in 0..256i32 {
            let mut ray = Ray::new(
                v(0, 40 * ONE, 100 * ONE),
                v((x - 128) * 400, -26000 - (y - 128) * 300, -ONE),
            );
            out.push(ray.intersect_tlas(tlas));
        }
    }
    out
}

#[test]
fn random_scene_is_the_same_on_every_run() {
    let a = build_random_tri_scene();
    let b = build_random_tri_scene();
    assert_eq!(a.instances.len(), 100);
    assert_eq!(a.bvhs.len(), 100);
    assert_eq!(a.nodes.len(), 199);
    for k in 0..100 {
        assert_eq!(a.bvhs[k].tris.len(), 1000);
        assert_eq!(a.bvhs[k].tris, b.bvhs[k].tris);
        assert_eq!(a.bvhs[k].tri_indices, b.bvhs[k].tri_indices);
        assert_eq!(a.bvhs[k].nodes.len(), b.bvhs[k].nodes.len());
        assert_eq!(a.instances[k].owner, k as u64);
        assert_eq!(a.instances[k].bvh_index, k);
        assert_eq!(a.instances[k].bounds, b.instances[k].bounds);
        let (i, j) = ((k / 10) as i32, (k % 10) as i32);
        assert_eq!(
            a.instances[k].inv_trans.translation,
            v(-(12 * i - 54) * ONE, 0, -(12 * j - 54) * ONE)
        );
    }
    let na: Vec<(Vec3, Vec3, TlasKind)> = a.nodes.iter().map(|n| (n.aabb_min, n.aabb_max, n.kind)).collect();
    let nb: Vec<(Vec3, Vec3, TlasKind)> = b.nodes.iter().map(|n| (n.aabb_min, n.aabb_max, n.kind)).collect();
    assert_eq!(na, nb);
    let ha = cast_grid(&a);
    let hb = cast_grid(&b);
    assert_eq!(ha, hb);
    assert!(ha.iter().any(|h| h.is_some()));
    assert!(ha.iter().any(|h| h.is_none()));
}

#[test]
fn built_scene_is_fit_for_queries() {
    let tlas = scattered_scene(9, 12);
    assert!(tlas.is_structured());
    let mut empty = Tlas::default();
    empty.build();
    assert!(empty.is_structured());
}

#[test]
fn broken_scene_is_not_fit_for_queries() {
    let mut t = scattered_scene(9, 12);
    t.instances[4].bvh_index = 1;
    assert!(!t.is_structured());

    let mut t = scattered_scene(9, 12);
    t.nodes[5].kind = TlasKind::Leaf { instance: 12 };
    assert!(!t.is_structured());

    let mut t = scattered_scene(9, 12);
    t.nodes[0].kind = TlasKind::Interior { left: 0, right: 1 };
    assert!(!t.is_structured());

    let mut t = scattered_scene(9, 12);
    t.nodes[13].kind = TlasKind::Interior { left: 13, right: 1 };
    assert!(!t.is_structured());

    let mut t = scattered_scene(9, 12);
    t.nodes[13].kind = TlasKind::Interior { left: 1, right: 23 };
    assert!(!t.is_structured());

    let mut t = scattered_scene(9, 12);
    t.bvhs[0].tri_indices[0] = 2;
    assert!(!t.is_structured());
}

#[test]
fn turned_instances_agree_with_testing_every_instance() {
    let turns = [
        (v(ONE, 0, 0), v(0, ONE, 0), v(0, 0, ONE)),
        (v(0, -ONE, 0), v(ONE, 0, 0), v(0, 0, ONE)),
        (v(0, 0, ONE), v(0, ONE, 0), v(-ONE, 0, 0)),
        (v(-ONE, 0, 0), v(0, 0, ONE), v(0, ONE, 0)),
    ];
    let mut s = 31u64;
    let mut tlas = Tlas::default();
    let mesh = tlas.add_bvh(Bvh::new(wall()));
    let mut maps = Vec::new();
    for k in 0..24usize {
        tlas.add_instance(BvhInstance::new(k as u64, mesh));
        let (row0, row1, row2) = turns[k % 4];
        let translation = v(coord(&mut s, 20 * ONE), coord(&mut s, 20 * ONE), coord(&mut s, 20 * ONE));
        maps.push((k as u64, Transform { row0, row1, row2, translation }));
    }
    tlas.update_bvh(&maps);
    tlas.build();
    // The stored inverse undoes each placement exactly.
    for (k, (_, map)) in maps.iter().enumerate() {
        let inv = tlas.instances[k].inv_trans;
        for p in [v(0, 0, 0), v(ONE, 2 * ONE, 3 * ONE), v(-7, 11, 13)] {
            assert_eq!(inv.transform_point3(map.transform_point3(p)), p);
        }
    }
    let mut hits = 0;
    for _ in 0..600 {
        let o = v(coord(&mut s, 30 * ONE), coord(&mut s, 30 * ONE), coord(&mut s, 30 * ONE));
        let at = tlas.instances[next(&mut s) as usize % 24].bounds;
        let d = v(
            ((at.bmin.x + at.bmax.x) / 2 - o.x) / 64 + coord(&mut s, ONE / 64),
            ((at.bmin.y + at.bmax.y) / 2 - o.y) / 64 + coord(&mut s, ONE / 64),
            ((at.bmin.z + at.bmax.z) / 2 - o.z) / 64 + coord(&mut s, ONE / 64),
        );
        let mut a = Ray::new(o, d);
        let mut b = Ray::new(o, d);
        a.intersect_tlas(&tlas);
        for inst in &tlas.instances {
            b.intersect_bvh_instance(inst, &tlas.bvhs);
        }
        assert_eq!(a.t, b.t);
        assert_eq!(a.hit.map(|h| h.t), b.hit.map(|h| h.t));
        if a.hit.is_some() {
            hits += 1;
        }
    }
    assert!(hits > 0);
}

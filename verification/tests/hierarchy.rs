use sah_bvh::bvh::Bvh;
use sah_bvh::ray::{Hit, Ray, T_MAX};
use sah_bvh::sah::Split;
use sah_bvh::tri::Tri;
use sah_bvh::vec3::{Vec3, ONE};

fn v(x: i32, y: i32, z: i32) -> Vec3 {
    Vec3::new(x, y, z)
}

fn fx(x: f64) -> i32 {
    (x * 65536.0).floor() as i32
}

fn quad() -> Vec<Tri> {
    let a = v(-ONE / 2, -ONE / 2, 0);
    let b = v(ONE / 2, -ONE / 2, 0);
    let c = v(ONE / 2, ONE / 2, 0);
    let d = v(-ONE / 2, ONE / 2, 0);
    vec![Tri::new(a, b, c), Tri::new(a, c, d)]
}

/// A small generator of its own, so that the meshes are the same on every run.
fn next(state: &mut u64) -> u32 {
    *state = state.wrapping_mul(6364136223846793005).wrapping_add(1442695040888963407);
    (*state >> 33) as u32
}

fn coord(state: &mut u64, span: i32) -> i32 {
    (next(state) % (2 * span as u32 + 1)) as i32 - span
}

fn random_mesh(seed: u64, count: usize, span: i32, size: i32) -> Vec<Tri> {
    let mut s = seed;
    let mut out = Vec::new();
    for _ in 0..count {
        let p = v(coord(&mut s, span), coord(&mut s, span), coord(&mut s, span));
        let q = v(p.x + coord(&mut s, size), p.y + coord(&mut s, size), p.z + coord(&mut s, size));
        let r = v(p.x + coord(&mut s, size), p.y + coord(&mut s, size), p.z + coord(&mut s, size));
        out.push(Tri::new(p, q, r));
    }
    out
}

fn brute_force(tris: &[Tri], ray: &mut Ray, owner: u64) {
    for (i, t) in tris.iter().enumerate() {
        ray.intersect_triangle(t, i, owner);
    }
}

fn check_tree(bvh: &Bvh) {
    // The index array is a permutation.
    let n = bvh.tris.len();
    assert_eq!(bvh.tri_indices.len(), n);
    let mut seen = vec![false; n];
    for &i in &bvh.tri_indices {
        assert!(!seen[i]);
        seen[i] = true;
    }
    // Leaves tile the index array; every box holds its triangles.
    let mut covered = vec![false; n];
    let mut leaves = 0;
    let mut stack = vec![0usize];
    let mut visited = 0;
    while let Some(i) = stack.pop() {
        visited += 1;
        let node = bvh.nodes[i];
        if node.is_leaf() {
            leaves += 1;
            for k in 0..node.tri_count as usize {
                let pos = node.left_first as usize + k;
                assert!(!covered[pos]);
                covered[pos] = true;
                let t = bvh.tris[bvh.tri_indices[pos]];
                for p in [t.vertex0, t.vertex1, t.vertex2] {
                    assert!(node.aabb_min.x <= p.x && p.x <= node.aabb_max.x);
                    assert!(node.aabb_min.y <= p.y && p.y <= node.aabb_max.y);
                    assert!(node.aabb_min.z <= p.z && p.z <= node.aabb_max.z);
                }
            }
        } else if node.left_first > 0 {
            let l = node.left_first as usize;
            assert!(l > i);
            for c in [l, l + 1] {
                let ch = bvh.nodes[c];
                assert!(node.aabb_min.x <= ch.aabb_min.x && ch.aabb_max.x <= node.aabb_max.x);
                assert!(node.aabb_min.y <= ch.aabb_min.y && ch.aabb_max.y <= node.aabb_max.y);
                assert!(node.aabb_min.z <= ch.aabb_min.z && ch.aabb_max.z <= node.aabb_max.z);
                stack.push(c);
            }
        }
    }
    assert_eq!(visited, bvh.nodes.len());
    if n > 0 {
        assert!(covered.iter().all(|&c| c));
        assert_eq!(bvh.nodes.len(), 2 * leaves - 1);
    }
}

#[test]
fn empty_mesh_gives_one_empty_node() {
    let bvh = Bvh::new(Vec::new());
    assert_eq!(bvh.nodes.len(), 1);
    assert_eq!(bvh.nodes[0].tri_count, 0);
    assert_eq!(bvh.nodes[0].left_first, 0);
    assert_eq!(bvh.nodes[0].aabb_min, v(i32::MAX, i32::MAX, i32::MAX));
    assert_eq!(bvh.nodes[0].aabb_max, v(i32::MIN, i32::MIN, i32::MIN));
    let mut ray = Ray::new(v(0, 0, ONE), v(0, 0, -ONE));
    bvh.intersect(&mut ray);
    assert_eq!(ray.hit, None);
    assert_eq!(ray.t, T_MAX);
}

#[test]
fn single_triangle_gives_single_leaf() {
    let t = Tri::new(v(0, 0, 0), v(ONE, 0, 0), v(0, ONE, 0));
    let bvh = Bvh::new(vec![t]);
    assert_eq!(bvh.nodes.len(), 1);
    assert_eq!(bvh.nodes[0].tri_count, 1);
    assert_eq!(bvh.nodes[0].left_first, 0);
    assert_eq!(bvh.nodes[0].aabb_min, v(0, 0, 0));
    assert_eq!(bvh.nodes[0].aabb_max, v(ONE, ONE, 0));
    assert_eq!(bvh.tri_indices, vec![0]);
}

#[test]
fn root_box_holds_every_vertex() {
    for seed in 1..6u64 {
        let tris = random_mesh(seed, 300, 50 * ONE, 2 * ONE);
        let bvh = Bvh::new(tris.clone());
        let root = bvh.nodes[0];
        for t in &tris {
            for p in [t.vertex0, t.vertex1, t.vertex2] {
                assert!(root.aabb_min.x <= p.x && p.x <= root.aabb_max.x);
                assert!(root.aabb_min.y <= p.y && p.y <= root.aabb_max.y);
                assert!(root.aabb_min.z <= p.z && p.z <= root.aabb_max.z);
            }
        }
        check_tree(&bvh);
    }
}

#[test]
fn coinciding_centroids_give_single_leaf() {
    // Different triangles, all with the centroid (0, 0, 0).
    let mut tris = Vec::new();
    for k in 1..20 {
        tris.push(Tri::new(v(-3 * k, 0, 0), v(3 * k, -3 * k, 0), v(0, 3 * k, 0)));
    }
    for t in &tris {
        assert_eq!(t.centroid, v(0, 0, 0));
    }
    let bvh = Bvh::new(tris);
    assert_eq!(bvh.nodes.len(), 1);
    assert_eq!(bvh.nodes[0].tri_count, 19);
    let root = bvh.nodes[0];
    assert_eq!(bvh.find_best_split_plane(&root).map(|s| s.cost), None);
}

#[test]
fn two_far_apart_triangles_are_split() {
    let a = Tri::new(v(0, 0, 0), v(ONE, 0, 0), v(0, ONE, 0));
    let b = Tri::new(v(100 * ONE, 0, 0), v(101 * ONE, 0, 0), v(100 * ONE, ONE, 0));
    let bvh = Bvh::new(vec![a, b]);
    assert_eq!(bvh.nodes.len(), 3);
    assert_eq!(bvh.nodes[0].tri_count, 0);
    assert_eq!(bvh.nodes[0].left_first, 1);
    assert_eq!(bvh.nodes[1].tri_count, 1);
    assert_eq!(bvh.nodes[1].left_first, 0);
    assert_eq!(bvh.nodes[2].tri_count, 1);
    assert_eq!(bvh.nodes[2].left_first, 1);
    assert_eq!(bvh.tri_indices, vec![0, 1]);
    assert_eq!(bvh.nodes[1].aabb_min, v(0, 0, 0));
    assert_eq!(bvh.nodes[1].aabb_max, v(ONE, ONE, 0));
    assert_eq!(bvh.nodes[2].aabb_min, v(100 * ONE, 0, 0));
    assert_eq!(bvh.nodes[2].aabb_max, v(101 * ONE, ONE, 0));
}

#[test]
fn best_plane_of_two_triangles() {
    let a = Tri::new(v(0, 0, 0), v(3, 0, 0), v(0, 3, 3));
    let b = Tri::new(v(800, 0, 0), v(803, 0, 0), v(800, 3, 3));
    let bvh = Bvh::new(vec![a, b]);
    // Looked at as one leaf over both triangles.
    let node = sah_bvh::bvh::BvhNode {
        aabb_min: v(0, 0, 0),
        aabb_max: v(803, 3, 3),
        left_first: 0,
        tri_count: 2,
    };
    let s: Split = bvh.find_best_split_plane(&node).unwrap();
    assert_eq!(s.axis, 0);
    assert_eq!(s.plane, 1);
    assert_eq!(s.lo, 1);
    assert_eq!(s.ext, 800);
    // Each side holds one triangle in a box of 3 by 3 by 3.
    assert_eq!(s.cost, 27 + 27);
    assert!(s.cost < node.calculate_cost());
}

#[test]
fn every_split_costs_less_than_no_split() {
    let tris = random_mesh(11, 500, 40 * ONE, ONE);
    let bvh = Bvh::new(tris);
    check_tree(&bvh);
    // Count the triangles below every node.
    let n = bvh.nodes.len();
    let mut count = vec![0i128; n];
    for i in (0..n).rev() {
        let node = bvh.nodes[i];
        count[i] = if node.is_leaf() {
            node.tri_count as i128
        } else {
            count[node.left_first as usize] + count[node.left_first as usize + 1]
        };
    }
    let area = |i: usize| {
        let nd = bvh.nodes[i];
        sah_bvh::aabb::Aabb { bmin: nd.aabb_min, bmax: nd.aabb_max }.area()
    };
    let mut interior = 0;
    for i in 0..n {
        let node = bvh.nodes[i];
        if !node.is_leaf() {
            interior += 1;
            let l = node.left_first as usize;
            assert!(count[l] * area(l) + count[l + 1] * area(l + 1) < count[i] * area(i));
        }
    }
    assert!(interior > 0);
}

#[test]
fn quad_is_hit_through_its_center() {
    let bvh = Bvh::new(quad());
    let mut ray = Ray::new(v(0, 0, ONE), v(0, 0, -ONE));
    bvh.intersect(&mut ray);
    let hit = ray.hit.expect("the quad is hit");
    assert!(hit.t > 0);
    assert_eq!(hit.t, ONE as i64);
    assert!(hit.u + hit.v <= ONE as i64);
    assert_eq!(ray.t, hit.t);
}

#[test]
fn quad_is_missed_from_aside() {
    let bvh = Bvh::new(quad());
    let mut ray = Ray::new(v(10 * ONE, 10 * ONE, 11 * ONE), v(0, 0, -ONE));
    bvh.intersect(&mut ray);
    assert_eq!(ray.hit, None);
}

#[test]
fn traversal_agrees_with_brute_force() {
    let mut s = 99u64;
    for seed in 1..5u64 {
        let tris = random_mesh(seed, 400, 20 * ONE, 3 * ONE);
        let bvh = Bvh::new(tris.clone());
        let mut hits = 0;
        for _ in 0..400 {
            let o = v(coord(&mut s, 30 * ONE), coord(&mut s, 30 * ONE), coord(&mut s, 30 * ONE));
            let d = v(coord(&mut s, ONE), coord(&mut s, ONE), coord(&mut s, ONE));
            let mut a = Ray::new(o, d);
            let mut b = Ray::new(o, d);
            a.intersect_bvh(&bvh, 7);
            brute_force(&tris, &mut b, 7);
            assert_eq!(a.t, b.t);
            assert_eq!(a.hit.map(|h| h.t), b.hit.map(|h| h.t));
            if let (Some(x), Some(y)) = (a.hit, b.hit) {
                hits += 1;
                // The nearest distance is the same; where two triangles lie at the
                // same distance either may be reported.
                let mut probe = Ray::new(o, d);
                probe.intersect_triangle(&tris[x.tri_index], x.tri_index, 7);
                assert_eq!(probe.hit, Some(x));
                assert_eq!(x.owner, 7);
                assert_eq!(y.owner, 7);
            }
        }
        assert!(hits > 0);
    }
}

#[test]
fn empty_scene_agrees_with_brute_force() {
    let tris: Vec<Tri> = Vec::new();
    let bvh = Bvh::new(tris.clone());
    let mut a = Ray::new(v(1, 2, 3), v(ONE, 0, 0));
    let mut b = a;
    a.intersect_bvh(&bvh, 0);
    brute_force(&tris, &mut b, 0);
    assert_eq!(a, b);
    assert_eq!(a.hit, None);
}

#[test]
fn preset_distance_bounds_the_query() {
    let bvh = Bvh::new(quad());
    let mut ray = Ray::new(v(0, 0, 3 * ONE), v(0, 0, -ONE));
    ray.t = 2 * ONE as i64;
    bvh.intersect(&mut ray);
    assert_eq!(ray.hit, None);
    assert_eq!(ray.t, 2 * ONE as i64);
    ray.t = 3 * ONE as i64 + 1;
    bvh.intersect(&mut ray);
    assert_eq!(ray.hit.map(|h| h.t), Some(3 * ONE as i64));
}

#[test]
fn default_ray_and_hit() {
    let r = Ray::default();
    assert_eq!(r.origin, v(0, 0, 0));
    assert_eq!(r.direction, v(0, 0, ONE));
    assert_eq!(r.t, T_MAX);
    assert_eq!(r.hit, None);
    let h = Hit::default();
    assert_eq!(h, Hit { t: T_MAX, u: 0, v: 0, tri_index: 0, owner: 0 });
    let _ = fx(0.5);
}

#[test]
fn mesh_is_parsed_three_indices_at_a_time() {
    let positions = vec![v(0, 0, 0), v(3, 0, 0), v(0, 3, 0), v(0, 0, 3)];
    let indices = vec![0u32, 1, 2, 2, 1, 3];
    let tris = sah_bvh::mesh::parse_mesh(&positions, &indices);
    assert_eq!(tris, vec![Tri::new(v(0, 0, 0), v(3, 0, 0), v(0, 3, 0)), Tri::new(v(0, 3, 0), v(3, 0, 0), v(0, 0, 3))]);
    assert_eq!(tris[0].centroid, v(1, 1, 0));
    assert_eq!(sah_bvh::mesh::parse_mesh(&positions, &Vec::new()), Vec::new());
}

#[test]
fn built_hierarchy_is_fit_for_queries() {
    let bvh = Bvh::new(random_mesh(5, 100, 10 * ONE, ONE));
    assert!(bvh.is_structured());
    assert!(Bvh::new(Vec::new()).is_structured());
}

#[test]
fn broken_hierarchy_is_not_fit_for_queries() {
    let good = Bvh::new(random_mesh(5, 100, 10 * ONE, ONE));
    assert!(good.nodes.len() > 1);

    let mut b = Bvh::new(random_mesh(5, 100, 10 * ONE, ONE));
    b.tri_indices[3] = 100;
    assert!(!b.is_structured());

    let mut b = Bvh::new(random_mesh(5, 100, 10 * ONE, ONE));
    b.tri_indices.pop();
    assert!(!b.is_structured());

    let mut b = Bvh::new(random_mesh(5, 100, 10 * ONE, ONE));
    b.nodes[0].left_first = b.nodes.len() as u32 - 1;
    assert!(!b.is_structured());

    let mut b = Bvh::new(random_mesh(5, 100, 10 * ONE, ONE));
    let last = b.nodes.len() - 1;
    b.nodes[last].tri_count = 0;
    b.nodes[last].left_first = 1;
    assert!(!b.is_structured());

    let mut b = Bvh::new(random_mesh(5, 100, 10 * ONE, ONE));
    b.nodes[last].tri_count = 101;
    b.nodes[last].left_first = 0;
    assert!(!b.is_structured());

    let mut b = Bvh::new(Vec::new());
    b.nodes.clear();
    assert!(!b.is_structured());
}

#[test]
fn left_of_the_plane_means_below_its_position() {
    // Eight triangles in a row along x, one to each bin.
    let mut tris = Vec::new();
    for k in 0..8 {
        let x = 100 * k;
        tris.push(Tri::new(v(x, 0, 0), v(x + 3, 0, 0), v(x, 3, 3)));
    }
    let bvh = Bvh::new(tris);
    for i in 0..bvh.nodes.len() {
        let node = bvh.nodes[i];
        if !node.is_leaf() {
            let l = bvh.nodes[node.left_first as usize];
            let r = bvh.nodes[node.left_first as usize + 1];
            // The children are cut apart along x.
            assert!(l.aabb_max.x < r.aabb_min.x);
        }
    }
    assert_eq!(bvh.nodes.len(), 15);
}

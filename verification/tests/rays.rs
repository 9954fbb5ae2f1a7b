use sah_bvh::ray::{Hit, Ray, T_EPSILON};
use sah_bvh::tri::Tri;
use sah_bvh::vec3::{Vec3, ONE};

fn v(x: i32, y: i32, z: i32) -> Vec3 {
    Vec3::new(x, y, z)
}

#[test]
fn box_ahead_is_entered_at_its_near_face() {
    let ray = Ray::new(v(0, 0, 0), v(ONE, 0, 0));
    let d = ray.intersect_aabb(v(2 * ONE, -ONE, -ONE), v(4 * ONE, ONE, ONE));
    assert_eq!(d, Some(2 * ONE as i64));
}

#[test]
fn box_behind_is_missed() {
    let ray = Ray::new(v(0, 0, 0), v(-ONE, 0, 0));
    assert_eq!(ray.intersect_aabb(v(2 * ONE, -ONE, -ONE), v(4 * ONE, ONE, ONE)), None);
}

#[test]
fn box_aside_is_missed() {
    let ray = Ray::new(v(0, 5 * ONE, 0), v(ONE, 0, 0));
    assert_eq!(ray.intersect_aabb(v(2 * ONE, -ONE, -ONE), v(4 * ONE, ONE, ONE)), None);
}

#[test]
fn origin_inside_gives_negative_entry() {
    let ray = Ray::new(v(3 * ONE, 0, 0), v(ONE, 0, 0));
    let d = ray.intersect_aabb(v(2 * ONE, -ONE, -ONE), v(4 * ONE, ONE, ONE));
    assert_eq!(d, Some(-(ONE as i64)));
}

#[test]
fn box_beyond_best_distance_is_missed() {
    let mut ray = Ray::new(v(0, 0, 0), v(ONE, 0, 0));
    ray.t = 2 * ONE as i64;
    assert_eq!(ray.intersect_aabb(v(2 * ONE, -ONE, -ONE), v(4 * ONE, ONE, ONE)), None);
    ray.t = 2 * ONE as i64 + 1;
    assert_eq!(
        ray.intersect_aabb(v(2 * ONE, -ONE, -ONE), v(4 * ONE, ONE, ONE)),
        Some(2 * ONE as i64)
    );
}

#[test]
fn empty_box_is_never_hit() {
    let ray = Ray::new(v(0, 0, 0), v(ONE, ONE, ONE));
    let e = sah_bvh::aabb::Aabb::default();
    assert_eq!(ray.intersect_aabb(e.bmin, e.bmax), None);
    let ray = Ray::new(v(0, 0, 0), v(0, 0, 0));
    assert_eq!(ray.intersect_aabb(e.bmin, e.bmax), None);
}

#[test]
fn diagonal_ray_enters_at_the_last_slab() {
    // Slower along y: the box is entered when y reaches it.
    let ray = Ray::new(v(0, 0, 0), v(ONE, ONE / 2, 0));
    let d = ray.intersect_aabb(v(ONE, ONE, -ONE), v(5 * ONE, 2 * ONE, ONE));
    assert_eq!(d, Some(2 * ONE as i64));
}

#[test]
fn entry_distance_is_rounded_down() {
    let ray = Ray::new(v(0, 0, 0), v(3, 0, 0));
    // (1 - 0) * 65536 / 3 = 21845.33
    assert_eq!(ray.intersect_aabb(v(1, -1, -1), v(2, 1, 1)), Some(21845));
    let ray = Ray::new(v(0, 0, 0), v(-3, 0, 0));
    // (-1 - 0) * 65536 / -3 = 21845.33
    assert_eq!(ray.intersect_aabb(v(-2, -1, -1), v(-1, 1, 1)), Some(21845));
    let ray = Ray::new(v(2, 0, 0), v(3, 0, 0));
    // Entered at (1 - 2) / 3 = -0.33, which rounds down to -21846.
    assert_eq!(ray.intersect_aabb(v(1, -1, -1), v(5, 1, 1)), Some(-21846));
}

#[test]
fn triangle_hit_records_distance_and_barycentrics() {
    let tri = Tri::new(v(0, 0, 0), v(4 * ONE, 0, 0), v(0, 4 * ONE, 0));
    let mut ray = Ray::new(v(ONE, 2 * ONE, 3 * ONE), v(0, 0, -ONE));
    ray.intersect_triangle(&tri, 5, 9);
    assert_eq!(
        ray.hit,
        Some(Hit { t: 3 * ONE as i64, u: ONE as i64 / 4, v: ONE as i64 / 2, tri_index: 5, owner: 9 })
    );
    assert_eq!(ray.t, 3 * ONE as i64);
}

#[test]
fn triangle_is_hit_from_both_sides() {
    let tri = Tri::new(v(0, 0, 0), v(4 * ONE, 0, 0), v(0, 4 * ONE, 0));
    let mut ray = Ray::new(v(ONE, ONE, -2 * ONE), v(0, 0, ONE));
    ray.intersect_triangle(&tri, 0, 0);
    assert_eq!(ray.hit.map(|h| (h.t, h.u, h.v)), Some((2 * ONE as i64, ONE as i64 / 4, ONE as i64 / 4)));
}

#[test]
fn triangle_behind_is_missed() {
    let tri = Tri::new(v(0, 0, 0), v(4 * ONE, 0, 0), v(0, 4 * ONE, 0));
    let mut ray = Ray::new(v(ONE, ONE, 2 * ONE), v(0, 0, ONE));
    ray.intersect_triangle(&tri, 0, 0);
    assert_eq!(ray.hit, None);
}

#[test]
fn ray_beside_triangle_misses() {
    let tri = Tri::new(v(0, 0, 0), v(4 * ONE, 0, 0), v(0, 4 * ONE, 0));
    for o in [v(-ONE, ONE, ONE), v(ONE, -ONE, ONE), v(3 * ONE, 3 * ONE, ONE)] {
        let mut ray = Ray::new(o, v(0, 0, -ONE));
        ray.intersect_triangle(&tri, 0, 0);
        assert_eq!(ray.hit, None);
    }
}

#[test]
fn parallel_ray_misses() {
    let tri = Tri::new(v(0, 0, 0), v(4 * ONE, 0, 0), v(0, 4 * ONE, 0));
    let mut ray = Ray::new(v(-ONE, ONE, 0), v(ONE, 0, 0));
    ray.intersect_triangle(&tri, 0, 0);
    assert_eq!(ray.hit, None);
}

#[test]
fn tiny_determinant_counts_as_parallel() {
    // Legs of 1/256: the determinant is 2^32, below the threshold.
    let tri = Tri::new(v(0, 0, 0), v(256, 0, 0), v(0, 256, 0));
    let mut ray = Ray::new(v(64, 64, ONE), v(0, 0, -ONE));
    ray.intersect_triangle(&tri, 0, 0);
    assert_eq!(ray.hit, None);
    // Legs of 1/64: the determinant is 2^36, above it.
    let tri = Tri::new(v(0, 0, 0), v(1024, 0, 0), v(0, 1024, 0));
    let mut ray = Ray::new(v(64, 64, ONE), v(0, 0, -ONE));
    ray.intersect_triangle(&tri, 0, 0);
    assert_eq!(ray.hit.map(|h| h.t), Some(ONE as i64));
}

#[test]
fn hit_at_the_origin_is_not_taken() {
    let tri = Tri::new(v(0, 0, 0), v(4 * ONE, 0, 0), v(0, 4 * ONE, 0));
    let mut ray = Ray::new(v(ONE, ONE, T_EPSILON as i32), v(0, 0, -ONE));
    ray.intersect_triangle(&tri, 0, 0);
    assert_eq!(ray.hit, None);
    let mut ray = Ray::new(v(ONE, ONE, T_EPSILON as i32 + 1), v(0, 0, -ONE));
    ray.intersect_triangle(&tri, 0, 0);
    assert_eq!(ray.hit.map(|h| h.t), Some(T_EPSILON + 1));
}

#[test]
fn only_a_nearer_hit_replaces_the_hit() {
    let near = Tri::new(v(0, 0, ONE), v(4 * ONE, 0, ONE), v(0, 4 * ONE, ONE));
    let far = Tri::new(v(0, 0, 0), v(4 * ONE, 0, 0), v(0, 4 * ONE, 0));
    let same = Tri::new(v(0, 0, ONE), v(8 * ONE, 0, ONE), v(0, 8 * ONE, ONE));
    let mut ray = Ray::new(v(ONE, ONE, 3 * ONE), v(0, 0, -ONE));
    ray.intersect_triangle(&far, 0, 1);
    assert_eq!(ray.hit.map(|h| (h.t, h.tri_index)), Some((3 * ONE as i64, 0)));
    ray.intersect_triangle(&near, 1, 1);
    assert_eq!(ray.hit.map(|h| (h.t, h.tri_index)), Some((2 * ONE as i64, 1)));
    ray.intersect_triangle(&far, 2, 1);
    assert_eq!(ray.hit.map(|h| (h.t, h.tri_index)), Some((2 * ONE as i64, 1)));
    ray.intersect_triangle(&same, 3, 1);
    assert_eq!(ray.hit.map(|h| (h.t, h.tri_index)), Some((2 * ONE as i64, 1)));
}

#[test]
fn extreme_coordinates_do_not_overflow() {
    let tri = Tri::new(
        v(i32::MIN, i32::MIN, i32::MAX),
        v(i32::MAX, i32::MIN, i32::MAX),
        v(i32::MIN, i32::MAX, i32::MAX),
    );
    let mut ray = Ray::new(v(-5, -5, i32::MIN), v(0, 0, i32::MAX));
    ray.intersect_triangle(&tri, 0, 0);
    let h = ray.hit.expect("hit");
    // The way is 2^32 - 1 long and the direction 2^31 - 1: the distance is just above 2.
    assert_eq!(h.t, 131072);
    let ray = Ray::new(v(i32::MIN, i32::MIN, i32::MIN), v(1, 1, 1));
    let d = ray.intersect_aabb(v(i32::MAX, i32::MAX, i32::MAX), v(i32::MAX, i32::MAX, i32::MAX));
    assert_eq!(d, Some(((1i64 << 32) - 1) * 65536));
}

use sah_bvh::aabb::Aabb;
use sah_bvh::bvh::BvhNode;
use sah_bvh::transform::Transform;
use sah_bvh::tri::Tri;
use sah_bvh::vec3::{Vec3, ONE};

fn v(x: i32, y: i32, z: i32) -> Vec3 {
    Vec3::new(x, y, z)
}

#[test]
fn empty_box_is_least() {
    let b = Aabb::default();
    assert_eq!(b.bmin, v(i32::MAX, i32::MAX, i32::MAX));
    assert_eq!(b.bmax, v(i32::MIN, i32::MIN, i32::MIN));
}

#[test]
fn grow_from_empty_gives_point_box() {
    let mut b = Aabb::default();
    b.grow(v(3, -4, 5));
    assert_eq!(b.bmin, v(3, -4, 5));
    assert_eq!(b.bmax, v(3, -4, 5));
    assert_eq!(b.area(), 0);
}

#[test]
fn grow_never_shrinks() {
    let mut b = Aabb { bmin: v(0, 0, 0), bmax: v(10, 10, 10) };
    b.grow(v(5, 5, 5));
    assert_eq!(b, Aabb { bmin: v(0, 0, 0), bmax: v(10, 10, 10) });
    b.grow(v(-1, 20, 5));
    assert_eq!(b, Aabb { bmin: v(-1, 0, 0), bmax: v(10, 20, 10) });
}

#[test]
fn grow_aabb_is_union() {
    let mut b = Aabb { bmin: v(0, 0, 0), bmax: v(1, 1, 1) };
    b.grow_aabb(&Aabb { bmin: v(-2, 0, 0), bmax: v(0, 3, 1) });
    assert_eq!(b, Aabb { bmin: v(-2, 0, 0), bmax: v(1, 3, 1) });
}

#[test]
fn grow_aabb_by_empty_changes_nothing() {
    let mut b = Aabb { bmin: v(0, 0, 0), bmax: v(1, 1, 1) };
    b.grow_aabb(&Aabb::default());
    assert_eq!(b, Aabb { bmin: v(0, 0, 0), bmax: v(1, 1, 1) });
}

#[test]
fn area_is_sum_of_face_products() {
    let b = Aabb { bmin: v(0, 0, 0), bmax: v(2, 3, 4) };
    assert_eq!(b.area(), 2 * 3 + 3 * 4 + 4 * 2);
}

#[test]
fn area_of_extreme_box_does_not_overflow() {
    let b = Aabb { bmin: v(i32::MIN, i32::MIN, i32::MIN), bmax: v(i32::MAX, i32::MAX, i32::MAX) };
    let e: i128 = (1i128 << 32) - 1;
    assert_eq!(b.area(), 3 * e * e);
}

#[test]
fn centroid_is_rounded_down_mean() {
    let t = Tri::new(v(0, 0, 0), v(1, 0, 0), v(1, 3, -1));
    assert_eq!(t.centroid, v(0, 1, -1));
    let t = Tri::new(v(3, 6, 9), v(3, 6, 9), v(3, 6, 9));
    assert_eq!(t.centroid, v(3, 6, 9));
    let t = Tri::new(v(i32::MAX, i32::MIN, -1), v(i32::MAX, i32::MIN, -1), v(i32::MAX, i32::MIN, -2));
    assert_eq!(t.centroid, v(i32::MAX, i32::MIN, -2));
}

#[test]
fn node_cost_is_count_times_area() {
    let n = BvhNode { aabb_min: v(0, 0, 0), aabb_max: v(2, 3, 4), left_first: 0, tri_count: 5 };
    assert!(n.is_leaf());
    assert_eq!(n.calculate_cost(), 5 * 26);
    let n = BvhNode { aabb_min: v(0, 0, 0), aabb_max: v(2, 3, 4), left_first: 1, tri_count: 0 };
    assert!(!n.is_leaf());
    assert_eq!(n.calculate_cost(), 0);
}

#[test]
fn vec3_min_max_get() {
    let a = v(1, 5, -3);
    let b = v(2, 4, -3);
    assert_eq!(a.min(b), v(1, 4, -3));
    assert_eq!(a.max(b), v(2, 5, -3));
    assert_eq!(a.get(0), 1);
    assert_eq!(a.get(1), 5);
    assert_eq!(a.get(2), -3);
    assert_eq!(Vec3::splat(7), v(7, 7, 7));
}

#[test]
fn identity_moves_nothing() {
    let t = Transform::identity();
    assert_eq!(t.transform_point3(v(5, -6, 7)), v(5, -6, 7));
    assert_eq!(t.transform_vector3(v(5, -6, 7)), v(5, -6, 7));
    assert_eq!(t.inverse(), t);
}

#[test]
fn translation_and_its_inverse() {
    let t = Transform::from_translation(v(5 * ONE, 0, -2 * ONE));
    assert_eq!(t.transform_point3(v(ONE, ONE, ONE)), v(6 * ONE, ONE, -ONE));
    assert_eq!(t.transform_vector3(v(ONE, ONE, ONE)), v(ONE, ONE, ONE));
    let inv = t.inverse();
    assert_eq!(inv.translation, v(-5 * ONE, 0, 2 * ONE));
    assert_eq!(inv.transform_point3(v(6 * ONE, ONE, -ONE)), v(ONE, ONE, ONE));
}

#[test]
fn quarter_turn_and_its_inverse() {
    // x -> y, y -> -x: a quarter turn about z, then a shift.
    let t = Transform {
        row0: v(0, -ONE, 0),
        row1: v(ONE, 0, 0),
        row2: v(0, 0, ONE),
        translation: v(10, 20, 30),
    };
    assert_eq!(t.transform_point3(v(1, 2, 3)), v(-2 + 10, 1 + 20, 3 + 30));
    let inv = t.inverse();
    assert_eq!(inv.row0, v(0, ONE, 0));
    assert_eq!(inv.row1, v(-ONE, 0, 0));
    assert_eq!(inv.row2, v(0, 0, ONE));
    assert_eq!(inv.transform_point3(t.transform_point3(v(1, 2, 3))), v(1, 2, 3));
    assert_eq!(inv.transform_point3(t.transform_point3(v(-70000, 123456, -5))), v(-70000, 123456, -5));
}

#[test]
fn scaling_by_two_inverts_to_a_half() {
    let t = Transform {
        row0: v(2 * ONE, 0, 0),
        row1: v(0, 2 * ONE, 0),
        row2: v(0, 0, 2 * ONE),
        translation: v(0, 0, 0),
    };
    let inv = t.inverse();
    assert_eq!(inv.row0, v(ONE / 2, 0, 0));
    assert_eq!(inv.row1, v(0, ONE / 2, 0));
    assert_eq!(inv.row2, v(0, 0, ONE / 2));
    assert_eq!(inv.transform_point3(v(8, 6, -5)), v(4, 3, -3));
}

#[test]
fn singular_map_inverts_to_zero() {
    let t = Transform {
        row0: v(ONE, 0, 0),
        row1: v(ONE, 0, 0),
        row2: v(0, 0, ONE),
        translation: v(1, 2, 3),
    };
    let inv = t.inverse();
    assert_eq!(inv.row0, v(0, 0, 0));
    assert_eq!(inv.row1, v(0, 0, 0));
    assert_eq!(inv.row2, v(0, 0, 0));
    assert_eq!(inv.translation, v(0, 0, 0));
}

#[test]
fn images_are_clamped_to_the_coordinate_range() {
    let t = Transform::from_translation(v(i32::MAX, i32::MIN, 0));
    assert_eq!(t.transform_point3(v(1, -1, 0)), v(i32::MAX, i32::MIN, 0));
}

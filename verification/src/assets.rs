//! Random meshes and a random scene, for trying the hierarchies out.

use vstd::prelude::*;
use rand::{Rng, SeedableRng};
use crate::algebra::lemma_mul_bounded;
use crate::builder::hierarchy_of;
use crate::bvh::Bvh;
use crate::cluster::tree_over;
use crate::instance::{world_box, BvhInstance};
use crate::ray::floor_div;
use crate::tlas::Tlas;
use crate::transform::Transform;
use crate::tri::Tri;
use crate::vec3::Vec3;

verus! {

/// The generator of the `rand_chacha` crate with 20 rounds; nothing is known
/// of what is inside it.
#[verifier::external_type_specification]
#[verifier::external_body]
pub struct ExChaCha20Rng(rand_chacha::ChaCha20Rng);

/// Calls `SeedableRng::seed_from_u64` of `rand_core` for the ChaCha
/// generator. Nothing is claimed of the generator that comes back.
#[verifier::external_body]
fn seeded_generator(seed: u64) -> (rng: rand_chacha::ChaCha20Rng) {
    rand_chacha::ChaCha20Rng::seed_from_u64(seed)
}

/// Calls `Rng::gen_range` of `rand` with the closed range `lo ..= hi`, which
/// the caller must not leave empty. All that is claimed of the number drawn
/// is that it lies in the range.
#[verifier::external_body]
fn draw_between(rng: &mut rand_chacha::ChaCha20Rng, lo: i32, hi: i32) -> (r: i32)
    requires
        lo <= hi,
    ensures
        lo <= r <= hi,
{
    rng.gen_range(lo..=hi)
}

/// Number of instances along one side of the random scene's grid.
pub const SIDE_COUNT: usize = 10;

/// Number of triangles of each mesh of the random scene.
pub const TRIS_PER_MESH: u32 = 1000;

/// The scale of each mesh of the random scene: 4.
pub const MESH_SCALE: i32 = 262144;

/// The seed of the random scene.
pub const SCENE_SEED: u64 = 0;

/// Every component of `r` lies between -1 and 1.
pub open spec fn in_unit_cube(r: Vec3) -> bool {
    &&& -65536 <= r.x <= 65536
    &&& -65536 <= r.y <= 65536
    &&& -65536 <= r.z <= 65536
}

/// The fixed-point product of two fixed-point numbers, rounded down.
pub open spec fn times(a: int, b: int) -> int {
    (a * b) / 65536
}

/// The triangle that the three draws `r0`, `r1`, `r2` from the unit cube
/// give at scale `scale`: its first corner is `r0 * scale`, the other two lie
/// at `r1` and `r2` from the first.
pub open spec fn is_drawn_triangle(t: Tri, r0: Vec3, r1: Vec3, r2: Vec3, scale: i32) -> bool {
    &&& t.wf()
    &&& t.vertex0.x == times(r0.x as int, scale as int)
    &&& t.vertex0.y == times(r0.y as int, scale as int)
    &&& t.vertex0.z == times(r0.z as int, scale as int)
    &&& t.vertex1.x == t.vertex0.x + r1.x
    &&& t.vertex1.y == t.vertex0.y + r1.y
    &&& t.vertex1.z == t.vertex0.z + r1.z
    &&& t.vertex2.x == t.vertex0.x + r2.x
    &&& t.vertex2.y == t.vertex0.y + r2.y
    &&& t.vertex2.z == t.vertex0.z + r2.z
}

/// The triangle is one that three draws from the unit cube give at scale `scale`.
pub open spec fn is_random_triangle(t: Tri, scale: i32) -> bool {
    exists|r0: Vec3, r1: Vec3, r2: Vec3|
        in_unit_cube(r0) && in_unit_cube(r1) && in_unit_cube(r2) && #[trigger] is_drawn_triangle(
            t,
            r0,
            r1,
            r2,
            scale,
        )
}

/// The greatest scale in size at which a random triangle still fits the coordinates.
pub const MAX_SCALE: i32 = 0x7ffe_ffff;

/// The place of instance number `k` of the random scene on its grid.
pub open spec fn grid_place(k: int) -> Transform {
    Transform::spec_from_translation(
        Vec3 {
            x: (((k / 10) * 12 - 54) * 65536) as i32,
            y: 0,
            z: (((k % 10) * 12 - 54) * 65536) as i32,
        },
    )
}

/// A point drawn from the cube that reaches from -1 to 1 on every axis.
fn random_vec3(rng: &mut rand_chacha::ChaCha20Rng) -> (r: Vec3)
    ensures
        in_unit_cube(r),
{
    let x: i32 = draw_between(rng, -65536, 65536);
    let y: i32 = draw_between(rng, -65536, 65536);
    let z: i32 = draw_between(rng, -65536, 65536);
    Vec3 { x, y, z }
}

/// A draw from -1 to 1 times `scale`.
fn scaled(r: i32, scale: i32) -> (v: i32)
    requires
        -65536 <= r <= 65536,
        -MAX_SCALE <= scale <= MAX_SCALE,
    ensures
        v == times(r as int, scale as int),
        -MAX_SCALE <= v <= MAX_SCALE,
{
    proof {
        lemma_mul_bounded(r as int, scale as int, 65536, MAX_SCALE as int);
    }
    let p: i128 = r as i128 * scale as i128;
    floor_div(p, 65536) as i32
}

/// The triangle that three draws from the unit cube give at scale `scale`.
pub fn drawn_triangle(r0: Vec3, r1: Vec3, r2: Vec3, scale: i32) -> (t: Tri)
    requires
        in_unit_cube(r0),
        in_unit_cube(r1),
        in_unit_cube(r2),
        -MAX_SCALE <= scale <= MAX_SCALE,
    ensures
        is_drawn_triangle(t, r0, r1, r2, scale),
{
    let v0 = Vec3 { x: scaled(r0.x, scale), y: scaled(r0.y, scale), z: scaled(r0.z, scale) };
    let v1 = Vec3 { x: v0.x + r1.x, y: v0.y + r1.y, z: v0.z + r1.z };
    let v2 = Vec3 { x: v0.x + r2.x, y: v0.y + r2.y, z: v0.z + r2.z };
    Tri::new(v0, v1, v2)
}

/// `size` random triangles: the first corner of each is drawn from the cube
/// that reaches from `-scale` to `scale`, the other two lie within 1 of it
/// on every axis.
pub fn gen_random_triangles(size: u32, scale: i32, rng: &mut rand_chacha::ChaCha20Rng) -> (r: Vec<
    Tri,
>)
    requires
        -MAX_SCALE <= scale <= MAX_SCALE,
    ensures
        r@.len() == size,
        forall|i: int| 0 <= i < size ==> is_random_triangle(#[trigger] r@[i], scale),
{
    let mut tris: Vec<Tri> = Vec::new();
    let mut i: u32 = 0;
    while i < size
        invariant
            i <= size,
            -MAX_SCALE <= scale <= MAX_SCALE,
            tris@.len() == i,
            forall|k: int| 0 <= k < i ==> is_random_triangle(#[trigger] tris@[k], scale),
        decreases size - i,
    {
        let r0 = random_vec3(rng);
        let r1 = random_vec3(rng);
        let r2 = random_vec3(rng);
        let t = drawn_triangle(r0, r1, r2, scale);
        tris.push(t);
        i += 1;
    }
    tris
}

/// A scene of 100 random meshes of 1000 triangles each, set out on a grid of
/// ten by ten around the origin with 12 between neighbours, drawn from the
/// generator seeded with 0. Instance `k` places mesh `k` and is owned by `k`.
pub fn build_random_tri_scene() -> (tlas: Tlas)
    ensures
        tlas.built(),
        tlas.structured(),
        tlas.nodes@ == tree_over(tlas.instances@),
        tlas.instances@.len() == 100,
        tlas.bvhs@.len() == 100,
        forall|k: int|
            0 <= k < 100 ==> {
                &&& (#[trigger] tlas.bvhs@[k]).wf()
                &&& (tlas.bvhs@[k].nodes@, tlas.bvhs@[k].tri_indices@) == hierarchy_of(
                    tlas.bvhs@[k].tris@,
                )
                &&& tlas.bvhs@[k].tris@.len() == 1000
                &&& forall|t: int|
                    0 <= t < 1000 ==> is_random_triangle(
                        #[trigger] tlas.bvhs@[k].tris@[t],
                        MESH_SCALE,
                    )
            },
        forall|k: int|
            0 <= k < 100 ==> {
                &&& (#[trigger] tlas.instances@[k]).owner == k
                &&& tlas.instances@[k].bvh_index == k
                &&& tlas.instances@[k].inv_trans == grid_place(k).spec_inverse()
                &&& tlas.instances@[k].bounds == world_box(
                    grid_place(k),
                    tlas.bvhs@[k].nodes@[0].aabb(),
                )
            },
{
    let mut rng = seeded_generator(SCENE_SEED);
    let mut tlas = Tlas::default();
    let mut i: usize = 0;
    while i < SIDE_COUNT
        invariant
            i <= SIDE_COUNT,
            tlas.nodes@.len() == 0,
            scene_upto(tlas, i * 10),
        decreases SIDE_COUNT - i,
    {
        let mut j: usize = 0;
        while j < SIDE_COUNT
            invariant
                i < SIDE_COUNT,
                j <= SIDE_COUNT,
                tlas.nodes@.len() == 0,
                scene_upto(tlas, i * 10 + j),
            decreases SIDE_COUNT - j,
        {
            let id: usize = i * SIDE_COUNT + j;
            let tris = gen_random_triangles(TRIS_PER_MESH, MESH_SCALE, &mut rng);
            let ghost before = tlas;
            let bvh_index: usize = tlas.add_bvh(Bvh::new(tris));
            let mut blas = BvhInstance::new(id as u64, bvh_index);
            let place = Transform::from_translation(
                Vec3 {
                    x: (i as i32 * 12 - 54) * 65536,
                    y: 0,
                    z: (j as i32 * 12 - 54) * 65536,
                },
            );
            proof {
                assert(tlas.bvhs@[bvh_index as int].structured());
                assert(id / 10 == i && id % 10 == j);
                assert(place == grid_place(id as int));
            }
            let root = tlas.bvhs[bvh_index].nodes[0];
            blas.update(&place, &root);
            tlas.add_instance(blas);
            proof {
                assert forall|k: int| 0 <= k < id + 1 implies #[trigger] mesh_ok(tlas, k) by {
                    if k < id {
                        assert(mesh_ok(before, k));
                        assert(tlas.bvhs@[k] == before.bvhs@[k]);
                    }
                }
                assert forall|k: int| 0 <= k < id + 1 implies #[trigger] placed_ok(tlas, k) by {
                    if k < id {
                        assert(placed_ok(before, k));
                        assert(tlas.bvhs@[k] == before.bvhs@[k]);
                        assert(tlas.instances@[k] == before.instances@[k]);
                    }
                }
            }
            j += 1;
        }
        i += 1;
    }
    proof {
        assert forall|k: int| 0 <= k < 100 implies (#[trigger] tlas.instances@[k]).bvh_index
            < tlas.bvhs@.len() by {
            assert(mesh_ok(tlas, k));
            assert(placed_ok(tlas, k));
        }
        assert forall|k: int| 0 <= k < 100 implies (#[trigger] tlas.bvhs@[k]).structured() by {
            assert(mesh_ok(tlas, k));
            assert(placed_ok(tlas, k));
        }
    }
    let ghost pre = tlas;
    tlas.build();
    proof {
        assert forall|k: int| 0 <= k < 100 implies {
            &&& (#[trigger] tlas.bvhs@[k]).wf()
            &&& (tlas.bvhs@[k].nodes@, tlas.bvhs@[k].tri_indices@) == hierarchy_of(
                tlas.bvhs@[k].tris@,
            )
            &&& tlas.bvhs@[k].tris@.len() == 1000
            &&& forall|t: int|
                0 <= t < 1000 ==> is_random_triangle(
                    #[trigger] tlas.bvhs@[k].tris@[t],
                    MESH_SCALE,
                )
        } by {
            assert(mesh_ok(pre, k));
            assert(placed_ok(pre, k));
        }
        assert forall|k: int| 0 <= k < 100 implies {
            &&& (#[trigger] tlas.instances@[k]).owner == k
            &&& tlas.instances@[k].bvh_index == k
            &&& tlas.instances@[k].inv_trans == grid_place(k).spec_inverse()
            &&& tlas.instances@[k].bounds == world_box(
                grid_place(k),
                tlas.bvhs@[k].nodes@[0].aabb(),
            )
        } by {
            assert(mesh_ok(pre, k));
            assert(placed_ok(pre, k));
        }
    }
    tlas
}

/// Mesh `k` of the scene is a well-formed hierarchy over 1000 random triangles.
pub open spec fn mesh_ok(tlas: Tlas, k: int) -> bool {
    &&& tlas.bvhs@[k].wf()
    &&& (tlas.bvhs@[k].nodes@, tlas.bvhs@[k].tri_indices@) == hierarchy_of(tlas.bvhs@[k].tris@)
    &&& tlas.bvhs@[k].tris@.len() == 1000
    &&& forall|t: int|
        0 <= t < 1000 ==> is_random_triangle(#[trigger] tlas.bvhs@[k].tris@[t], MESH_SCALE)
}

/// Instance `k` of the scene places mesh `k` at its place on the grid.
pub open spec fn placed_ok(tlas: Tlas, k: int) -> bool {
    &&& tlas.instances@[k].owner == k
    &&& tlas.instances@[k].bvh_index == k
    &&& tlas.instances@[k].inv_trans == grid_place(k).spec_inverse()
    &&& tlas.instances@[k].bounds == world_box(grid_place(k), tlas.bvhs@[k].nodes@[0].aabb())
}

/// The first `n` meshes of the scene have been made and placed.
pub open spec fn scene_upto(tlas: Tlas, n: int) -> bool {
    &&& tlas.bvhs@.len() == n
    &&& tlas.instances@.len() == n
    &&& forall|k: int| 0 <= k < n ==> #[trigger] mesh_ok(tlas, k)
    &&& forall|k: int| 0 <= k < n ==> #[trigger] placed_ok(tlas, k)
}

} // verus!

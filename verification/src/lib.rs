//! Bounding volume hierarchies for nearest-hit ray queries against triangle
//! meshes, with every function proved against its contract.
//!
//! All coordinates, directions and distances are 16.16 fixed-point numbers:
//! the integer `c` stands for `c / 65536`. Arithmetic on them is exact up to
//! one rounding, always towards negative infinity, at the point where a
//! distance or a barycentric coordinate is stored.
//!
//! - [`vec3`], [`aabb`], [`tri`]: points, boxes, triangles.
//! - [`bvh`], [`sah`], [`builder`]: the hierarchy over one mesh, built top
//!   down by the binned surface-area heuristic.
//! - [`transform`], [`instance`]: a mesh placed in the world.
//! - [`tlas`], [`cluster`]: the hierarchy over the placed meshes of a scene,
//!   built bottom up by agglomerative clustering.
//! - [`ray`], [`traverse`]: the ray, its tests against a box and a triangle,
//!   and the walk through both hierarchies.
//! - [`nearest`], [`scene`], [`placement`]: the proofs that the walks find
//!   the nearest hit.
//! - [`mesh`], [`assets`]: triangles from indexed meshes, and random scenes.
//! - [`members`], [`bounds`], [`algebra`]: sets of triangle numbers, least
//!   boxes, and arithmetic, as the proofs need them.

pub mod aabb;
pub mod algebra;
pub mod assets;
pub mod bounds;
pub mod builder;
pub mod bvh;
pub mod cluster;
pub mod instance;
pub mod members;
pub mod mesh;
pub mod nearest;
pub mod placement;
pub mod ray;
pub mod sah;
pub mod scene;
pub mod tlas;
pub mod transform;
pub mod traverse;
pub mod tri;
pub mod vec3;

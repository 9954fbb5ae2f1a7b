//! Triangles from an indexed mesh.

use vstd::prelude::*;
use crate::tri::Tri;
use crate::vec3::Vec3;

verus! {

/// `t` is the triangle with the corners `a`, `b`, `c`, in that order.
pub open spec fn is_triangle_of(t: Tri, a: Vec3, b: Vec3, c: Vec3) -> bool {
    t.vertex0 == a && t.vertex1 == b && t.vertex2 == c && t.wf()
}

/// The triangles of a mesh that is given as a list of corner positions and
/// a list of indices into it, three for each triangle.
pub fn parse_mesh(positions: &Vec<Vec3>, indices: &Vec<u32>) -> (r: Vec<Tri>)
    requires
        indices@.len() % 3 == 0,
        forall|k: int| 0 <= k < indices@.len() ==> (#[trigger] indices@[k]) < positions@.len(),
    ensures
        r@.len() == indices@.len() / 3,
        forall|j: int|
            0 <= j < r@.len() ==> is_triangle_of(
                #[trigger] r@[j],
                positions@[indices@[3 * j] as int],
                positions@[indices@[3 * j + 1] as int],
                positions@[indices@[3 * j + 2] as int],
            ),
{
    let count: usize = indices.len() / 3;
    let mut triangles: Vec<Tri> = Vec::with_capacity(count);
    let mut j: usize = 0;
    while j < count
        invariant
            j <= count,
            count == indices.len() / 3,
            indices.len() % 3 == 0,
            forall|k: int| 0 <= k < indices@.len() ==> (#[trigger] indices@[k]) < positions@.len(),
            triangles@.len() == j,
            forall|i: int|
                0 <= i < j ==> is_triangle_of(
                    #[trigger] triangles@[i],
                    positions@[indices@[3 * i] as int],
                    positions@[indices@[3 * i + 1] as int],
                    positions@[indices@[3 * i + 2] as int],
                ),
        decreases count - j,
    {
        let v0: Vec3 = positions[indices[3 * j] as usize];
        let v1: Vec3 = positions[indices[3 * j + 1] as usize];
        let v2: Vec3 = positions[indices[3 * j + 2] as usize];
        triangles.push(Tri::new(v0, v1, v2));
        j += 1;
    }
    triangles
}

} // verus!

//! The bottom-level hierarchy over one mesh.

use vstd::prelude::*;
use crate::aabb::{Aabb, lemma_area_bounded};
use crate::bounds::{holds_tri, is_bounds, lemma_bounds_unique};
use crate::members::{ids, is_permutation};
use crate::sah::{flat, is_best_split, lemma_flat_offers_nothing, Split};
use crate::tri::Tri;
use crate::algebra::lemma_mul_bounded;
use crate::vec3::Vec3;

verus! {

/// One node of a [`Bvh`].
///
/// With `tri_count > 0` the node is a leaf over the `tri_count` entries of the
/// index array that start at `left_first`. With `tri_count == 0` and
/// `left_first > 0` it is an interior node whose children are the nodes
/// `left_first` and `left_first + 1`. With both zero it is the root of a
/// hierarchy over no triangles.
#[derive(Clone, Copy, Debug)]
pub struct BvhNode {
    pub aabb_min: Vec3,
    pub aabb_max: Vec3,
    pub left_first: u32,
    pub tri_count: u32,
}

impl BvhNode {
    /// The node's box.
    pub open spec fn aabb(self) -> Aabb {
        Aabb { bmin: self.aabb_min, bmax: self.aabb_max }
    }

    /// The cost of leaving the node unsplit: triangle count times box area.
    pub open spec fn spec_cost(self) -> int {
        self.tri_count * self.aabb().spec_area()
    }

    pub fn is_leaf(&self) -> (r: bool)
        ensures
            r == (self.tri_count > 0),
    {
        self.tri_count > 0
    }

    /// The cost of leaving the node unsplit.
    pub fn calculate_cost(&self) -> (r: i128)
        ensures
            r == self.spec_cost(),
    {
        let b = Aabb { bmin: self.aabb_min, bmax: self.aabb_max };
        let area: i128 = b.area();
        proof {
            lemma_area_bounded(b);
            lemma_mul_bounded(
                self.tri_count as int,
                area as int,
                0x1_0000_0000,
                0x3_0000_0000_0000_0000,
            );
        }
        self.tri_count as i128 * area
    }
}

impl Default for BvhNode {
    fn default() -> (r: BvhNode)
        ensures
            r.left_first == 0,
            r.tri_count == 0,
            r.aabb_min == (Vec3 { x: 0, y: 0, z: 0 }),
            r.aabb_max == (Vec3 { x: 0, y: 0, z: 0 }),
    {
        BvhNode { aabb_min: Vec3::splat(0), aabb_max: Vec3::splat(0), left_first: 0, tri_count: 0 }
    }
}

/// A bounding volume hierarchy over the triangles of one mesh.
pub struct Bvh {
    pub nodes: Vec<BvhNode>,
    pub tris: Vec<Tri>,
    pub tri_indices: Vec<usize>,
}


/// The most triangles that one hierarchy can hold: with more, the number of a
/// node might not fit the 32 bits that a node has for it.
pub const MAX_TRIS: usize = 0x8000_0000;

/// `r`, the best candidate plane of `m`, does not lead to a split: there is
/// none, or it does not cost less than leaving the triangles together.
pub open spec fn stays_leaf(r: Option<Split>, cost: int) -> bool {
    match r {
        None => true,
        Some(s) => s.cost >= cost,
    }
}

/// No split of `m` is due, given the cost `cost` of leaving it together.
pub open spec fn leaf_settled(tris: Seq<Tri>, m: Set<int>, cost: int) -> bool {
    exists|r: Option<Split>| #[trigger] is_best_split(tris, m, r) && stays_leaf(r, cost)
}

/// `ml` and `mr` are the two sides of the best candidate plane of `m`, neither
/// is without a triangle, and the plane costs less than `cost`.
pub open spec fn split_by(
    tris: Seq<Tri>,
    m: Set<int>,
    ml: Set<int>,
    mr: Set<int>,
    cost: int,
) -> bool {
    exists|s: Split|
        {
            &&& #[trigger] is_best_split(tris, m, Some(s))
            &&& s.cost < cost
            &&& ml == s.left(tris, m)
            &&& mr == s.right(tris, m)
            &&& ml.len() > 0
            &&& mr.len() > 0
        }
}

impl Bvh {
    /// Node `i` refers only to triangles and nodes that exist, and an interior
    /// node only to nodes behind it.
    pub open spec fn node_shaped(&self, i: int) -> bool {
        let n = self.nodes@[i];
        if n.tri_count > 0 {
            n.left_first + n.tri_count <= self.tri_indices@.len()
        } else if n.left_first > 0 {
            i < n.left_first && n.left_first + 1 < self.nodes@.len()
        } else {
            true
        }
    }

    /// What a query needs of the hierarchy: all references are in range and
    /// the nodes form a forest in which children come after their parent.
    pub open spec fn structured(&self) -> bool {
        &&& self.tri_indices@.len() == self.tris@.len()
        &&& forall|k: int|
            0 <= k < self.tri_indices@.len() ==> (#[trigger] self.tri_indices@[k])
                < self.tris@.len()
        &&& self.nodes@.len() >= 1
        &&& forall|i: int| 0 <= i < self.nodes@.len() ==> #[trigger] self.node_shaped(i)
    }

    /// The numbers of the triangles below node `i`.
    pub open spec fn members(&self, i: int) -> Set<int>
        decreases self.nodes@.len() - i,
    {
        if 0 <= i < self.nodes@.len() {
            let n = self.nodes@[i];
            if n.tri_count > 0 {
                ids(self.tri_indices@, n.left_first as int, n.tri_count as int)
            } else if i < n.left_first && n.left_first + 1 < self.nodes@.len() {
                self.members(n.left_first as int).union(self.members(n.left_first + 1))
            } else {
                Set::empty()
            }
        } else {
            Set::empty()
        }
    }

    /// Node `i` other than the root is the child of an interior node before it.
    pub open spec fn has_parent(&self, i: int) -> bool {
        exists|p: int|
            0 <= p < i && (#[trigger] self.nodes@[p]).tri_count == 0 && self.nodes@[p].left_first
                > 0 && (self.nodes@[p].left_first == i || self.nodes@[p].left_first + 1 == i)
    }

    /// Node `i` is as the builder leaves it: its box is the least box around
    /// its triangles; a leaf is one because no split was due; an interior node
    /// has as children the two sides of the best plane, which cost less than
    /// the node would have cost unsplit.
    pub open spec fn node_wf(&self, i: int) -> bool {
        let n = self.nodes@[i];
        let m = self.members(i);
        &&& is_bounds(n.aabb(), self.tris@, m)
        &&& i > 0 ==> self.has_parent(i)
        &&& if n.tri_count > 0 {
            leaf_settled(self.tris@, m, n.spec_cost())
        } else if n.left_first > 0 {
            split_by(
                self.tris@,
                m,
                self.members(n.left_first as int),
                self.members(n.left_first + 1),
                m.len() * n.aabb().spec_area(),
            )
        } else {
            i == 0 && self.tris@.len() == 0
        }
    }

    /// The hierarchy is as `new` builds it.
    pub open spec fn wf(&self) -> bool {
        &&& self.structured()
        &&& self.tris@.len() <= MAX_TRIS
        &&& is_permutation(self.tri_indices@, self.tris@.len() as int)
        &&& self.members(0) == all_of(self.tris@.len())
        &&& forall|i: int| 0 <= i < self.nodes@.len() ==> #[trigger] self.node_wf(i)
    }
}


/// The set of all triangle numbers of a mesh of `n` triangles.
pub open spec fn all_of(n: nat) -> Set<int> {
    Set::new(|t: int| 0 <= t < n)
}

/// The box of the root of a well-formed hierarchy holds every corner of
/// every triangle of the mesh.
pub proof fn lemma_root_holds_every_triangle(bvh: Bvh)
    requires
        bvh.wf(),
    ensures
        forall|t: int|
            0 <= t < bvh.tris@.len() ==> holds_tri(bvh.nodes@[0].aabb(), #[trigger] bvh.tris@[t]),
{
    assert(bvh.node_wf(0));
    assert forall|t: int| 0 <= t < bvh.tris@.len() implies holds_tri(
        bvh.nodes@[0].aabb(),
        #[trigger] bvh.tris@[t],
    ) by {
        assert(bvh.members(0).contains(t));
    }
}

/// Wherever a well-formed hierarchy has split a node, the two children
/// together cost strictly less than the node would have cost as a leaf, cost
/// being the number of triangles times the area of the box.
pub proof fn lemma_split_costs_less(bvh: Bvh, i: int)
    requires
        bvh.wf(),
        0 <= i < bvh.nodes@.len(),
        bvh.nodes@[i].tri_count == 0,
        bvh.nodes@[i].left_first > 0,
    ensures
        ({
            let l = bvh.nodes@[i].left_first as int;
            bvh.members(l).len() * bvh.nodes@[l].aabb().spec_area() + bvh.members(l + 1).len()
                * bvh.nodes@[l + 1].aabb().spec_area() < bvh.members(i).len()
                * bvh.nodes@[i].aabb().spec_area()
        }),
{
    let l = bvh.nodes@[i].left_first as int;
    let m = bvh.members(i);
    assert(bvh.node_shaped(i));
    assert(bvh.node_wf(i));
    assert(bvh.node_wf(l));
    assert(bvh.node_wf(l + 1));
    let s = choose|s: Split|
        {
            &&& #[trigger] is_best_split(bvh.tris@, m, Some(s))
            &&& s.cost < m.len() * bvh.nodes@[i].aabb().spec_area()
            &&& bvh.members(l) == s.left(bvh.tris@, m)
            &&& bvh.members(l + 1) == s.right(bvh.tris@, m)
            &&& bvh.members(l).len() > 0
            &&& bvh.members(l + 1).len() > 0
        };
    lemma_bounds_unique(bvh.nodes@[l].aabb(), bvh.tris@, bvh.members(l));
    lemma_bounds_unique(bvh.nodes@[l + 1].aabb(), bvh.tris@, bvh.members(l + 1));
}

/// A mesh whose centroids coincide on every axis gives a hierarchy of a single node.
pub proof fn lemma_degenerate_single_leaf(bvh: Bvh)
    requires
        bvh.wf(),
        flat(bvh.tris@, all_of(bvh.tris@.len()), 0),
        flat(bvh.tris@, all_of(bvh.tris@.len()), 1),
        flat(bvh.tris@, all_of(bvh.tris@.len()), 2),
    ensures
        bvh.nodes@.len() == 1,
{
    let root = bvh.nodes@[0];
    let m = bvh.members(0);
    assert(m == all_of(bvh.tris@.len()));
    assert(bvh.node_wf(0));
    if root.tri_count == 0 && root.left_first > 0 {
        let s = choose|s: Split|
            {
                &&& #[trigger] is_best_split(bvh.tris@, m, Some(s))
                &&& s.cost < m.len() * root.aabb().spec_area()
                &&& bvh.members(root.left_first as int) == s.left(bvh.tris@, m)
                &&& bvh.members(root.left_first + 1) == s.right(bvh.tris@, m)
                &&& bvh.members(root.left_first as int).len() > 0
                &&& bvh.members(root.left_first + 1).len() > 0
            };
        lemma_flat_offers_nothing(bvh.tris@, m, s);
        assert(false);
    }
    if bvh.nodes@.len() > 1 {
        assert(bvh.node_wf(1));
        assert(bvh.has_parent(1));
        assert(false);
    }
}

} // verus!

//! Nearest-hit queries against one hierarchy and against a scene.

use vstd::prelude::*;
use crate::bvh::{Bvh, BvhNode};
use crate::instance::after_instance;
use crate::ray::{Hit, Ray};
use crate::tlas::{Tlas, TlasKind, TlasNode};
use crate::tri::Tri;

verus! {

/// The first distance is farther than the second, a miss being farther than any hit.
pub open spec fn farther(d1: Option<i64>, d2: Option<i64>) -> bool {
    match (d1, d2) {
        (Some(a), Some(b)) => a > b,
        (None, Some(_)) => true,
        _ => false,
    }
}

/// The ray after it has been tested, in order, against the triangles listed
/// at positions `first .. first + count` of the index array.
pub open spec fn after_leaf(
    ray: Ray,
    tris: Seq<Tri>,
    idx: Seq<usize>,
    first: int,
    count: int,
    owner: u64,
) -> Ray
    decreases count,
{
    if count <= 0 {
        ray
    } else {
        after_leaf(ray, tris, idx, first, count - 1, owner).spec_intersect_triangle(
            tris[idx[first + count - 1] as int],
            idx[first + count - 1],
            owner,
        )
    }
}

/// The ray after the traversal of node `i` and all below it: a leaf tests its
/// triangles; an interior node visits the child whose box the ray enters
/// first, then the other, each only if the ray, as it was on arrival at the
/// node, enters the child's box before its best distance.
pub open spec fn after_node(bvh: Bvh, ray: Ray, i: int, owner: u64) -> Ray
    decreases bvh.nodes@.len() - i,
{
    if 0 <= i < bvh.nodes@.len() {
        let n = bvh.nodes@[i];
        if n.tri_count > 0 {
            after_leaf(
                ray,
                bvh.tris@,
                bvh.tri_indices@,
                n.left_first as int,
                n.tri_count as int,
                owner,
            )
        } else if i < n.left_first && n.left_first + 1 < bvh.nodes@.len() {
            let c1 = n.left_first as int;
            let c2 = c1 + 1;
            let d1 = ray.spec_intersect_aabb(bvh.nodes@[c1].aabb_min, bvh.nodes@[c1].aabb_max);
            let d2 = ray.spec_intersect_aabb(bvh.nodes@[c2].aabb_min, bvh.nodes@[c2].aabb_max);
            let near = if farther(d1, d2) {
                c2
            } else {
                c1
            };
            let far = if farther(d1, d2) {
                c1
            } else {
                c2
            };
            let dnear = if farther(d1, d2) {
                d2
            } else {
                d1
            };
            let dfar = if farther(d1, d2) {
                d1
            } else {
                d2
            };
            if dnear is None {
                ray
            } else if dfar is None {
                after_node(bvh, ray, near, owner)
            } else {
                after_node(bvh, after_node(bvh, ray, near, owner), far, owner)
            }
        } else {
            ray
        }
    } else {
        ray
    }
}

/// The ray after the traversal of the nodes on the stack, the last one first.
pub open spec fn after_stack(bvh: Bvh, ray: Ray, stack: Seq<usize>, owner: u64) -> Ray
    decreases stack.len(),
{
    if stack.len() == 0 {
        ray
    } else {
        after_stack(
            bvh,
            after_node(bvh, ray, stack.last() as int, owner),
            stack.drop_last(),
            owner,
        )
    }
}

/// The number of nodes at and below node `i`.
pub open spec fn weight(bvh: Bvh, i: int) -> nat
    decreases bvh.nodes@.len() - i,
{
    if 0 <= i < bvh.nodes@.len() {
        let n = bvh.nodes@[i];
        if n.tri_count == 0 && i < n.left_first && n.left_first + 1 < bvh.nodes@.len() {
            1 + weight(bvh, n.left_first as int) + weight(bvh, n.left_first + 1)
        } else {
            1
        }
    } else {
        1
    }
}

/// The number of nodes at and below the nodes on the stack.
pub open spec fn stack_weight(bvh: Bvh, stack: Seq<usize>) -> nat
    decreases stack.len(),
{
    if stack.len() == 0 {
        0
    } else {
        weight(bvh, stack.last() as int) + stack_weight(bvh, stack.drop_last())
    }
}

impl Ray {
    /// Finds the nearest triangle of `bvh` that the ray passes through before
    /// its current best distance, and records it with the owner given.
    ///
    /// The hierarchy is walked with a stack, nearer child first; a child whose
    /// box the ray does not enter before its best distance is left out.
    pub fn intersect_bvh(&mut self, bvh: &Bvh, owner: u64)
        requires
            bvh.structured(),
        ensures
            *final(self) == after_node(*bvh, *old(self), 0, owner),
    {
        let mut stack: Vec<usize> = Vec::with_capacity(64);
        let mut node_idx: usize = 0;
        loop
            invariant_except_break
                node_idx < bvh.nodes.len(),
                after_stack(*bvh, after_node(*bvh, *self, node_idx as int, owner), stack@, owner)
                    == after_node(*bvh, *old(self), 0, owner),
            invariant
                bvh.structured(),
                forall|k: int| 0 <= k < stack@.len() ==> #[trigger] stack@[k] < bvh.nodes.len(),
            ensures
                *self == after_node(*bvh, *old(self), 0, owner),
            decreases weight(*bvh, node_idx as int) + stack_weight(*bvh, stack@),
        {
            let node: BvhNode = bvh.nodes[node_idx];
            proof {
                assert(bvh.node_shaped(node_idx as int));
            }
            let mut descend: bool = false;
            if node.is_leaf() {
                let ghost start = *self;
                let first: usize = node.left_first as usize;
                let count: usize = node.tri_count as usize;
                let mut i: usize = 0;
                while i < count
                    invariant
                        i <= count,
                        bvh.structured(),
                        first + count <= bvh.tri_indices.len(),
                        *self == after_leaf(
                            start,
                            bvh.tris@,
                            bvh.tri_indices@,
                            first as int,
                            i as int,
                            owner,
                        ),
                    decreases count - i,
                {
                    let tri_index: usize = bvh.tri_indices[first + i];
                    self.intersect_triangle(&bvh.tris[tri_index], tri_index, owner);
                    i += 1;
                }
            } else if node.left_first > 0 {
                let c1: usize = node.left_first as usize;
                let c2: usize = c1 + 1;
                let n1: BvhNode = bvh.nodes[c1];
                let n2: BvhNode = bvh.nodes[c2];
                let d1: Option<i64> = self.intersect_aabb(n1.aabb_min, n1.aabb_max);
                let d2: Option<i64> = self.intersect_aabb(n2.aabb_min, n2.aabb_max);
                let swap: bool = match (d1, d2) {
                    (Some(a), Some(b)) => a > b,
                    (None, Some(_)) => true,
                    _ => false,
                };
                let (near, dnear, far, dfar) = if swap {
                    (c2, d2, c1, d1)
                } else {
                    (c1, d1, c2, d2)
                };
                if dnear.is_some() {
                    if dfar.is_some() {
                        proof {
                            assert(stack@.push(far).drop_last() =~= stack@);
                        }
                        stack.push(far);
                    }
                    node_idx = near;
                    descend = true;
                }
            }
            if !descend {
                if stack.len() == 0 {
                    break ;
                }
                let ghost before = stack@;
                node_idx = stack.pop().unwrap();
                proof {
                    assert(stack@ =~= before.drop_last());
                }
            }
        }
    }
}

impl Bvh {
    /// Finds the nearest triangle that `ray` passes through before its
    /// current best distance; the hit is recorded with owner 0.
    pub fn intersect(&self, ray: &mut Ray)
        requires
            self.structured(),
        ensures
            *final(ray) == after_node(*self, *old(ray), 0, 0),
    {
        ray.intersect_bvh(self, 0);
    }
}


/// The ray after the traversal of node `i` of the scene's tree and all below
/// it: a leaf tests its instance; an interior node visits the child whose
/// box the ray enters first, then the other, each only if the ray, as it was
/// on arrival at the node, enters the child's box before its best distance.
pub open spec fn after_tlas_node(tlas: Tlas, ray: Ray, i: int) -> Ray
    decreases tlas.rank(i),
{
    if 0 <= i < tlas.nodes@.len() {
        match tlas.nodes@[i].kind {
            TlasKind::Leaf { instance } => if instance < tlas.instances@.len() {
                after_instance(ray, tlas.instances@[instance as int], tlas.bvhs@)
            } else {
                ray
            },
            TlasKind::Interior { left, right } => if tlas.children_below(i, left, right) {
                let c1 = left as int;
                let c2 = right as int;
                let d1 = ray.spec_intersect_aabb(
                    tlas.nodes@[c1].aabb_min,
                    tlas.nodes@[c1].aabb_max,
                );
                let d2 = ray.spec_intersect_aabb(
                    tlas.nodes@[c2].aabb_min,
                    tlas.nodes@[c2].aabb_max,
                );
                let near = if farther(d1, d2) {
                    c2
                } else {
                    c1
                };
                let far = if farther(d1, d2) {
                    c1
                } else {
                    c2
                };
                let dnear = if farther(d1, d2) {
                    d2
                } else {
                    d1
                };
                let dfar = if farther(d1, d2) {
                    d1
                } else {
                    d2
                };
                if dnear is None {
                    ray
                } else if dfar is None {
                    after_tlas_node(tlas, ray, near)
                } else {
                    after_tlas_node(tlas, after_tlas_node(tlas, ray, near), far)
                }
            } else {
                ray
            },
        }
    } else {
        ray
    }
}

/// The ray after the traversal of the nodes on the stack, the last one first.
pub open spec fn after_tlas_stack(tlas: Tlas, ray: Ray, stack: Seq<usize>) -> Ray
    decreases stack.len(),
{
    if stack.len() == 0 {
        ray
    } else {
        after_tlas_stack(tlas, after_tlas_node(tlas, ray, stack.last() as int), stack.drop_last())
    }
}

/// The ray after a query against the whole scene.
pub open spec fn after_tlas(tlas: Tlas, ray: Ray) -> Ray {
    if tlas.nodes@.len() == 0 {
        ray
    } else {
        after_tlas_node(tlas, ray, 0)
    }
}

/// The number of nodes at and below node `i` of the scene's tree.
pub open spec fn tlas_weight(tlas: Tlas, i: int) -> nat
    decreases tlas.rank(i),
{
    if 0 <= i < tlas.nodes@.len() {
        match tlas.nodes@[i].kind {
            TlasKind::Leaf { instance } => 1,
            TlasKind::Interior { left, right } => if tlas.children_below(i, left, right) {
                1 + tlas_weight(tlas, left as int) + tlas_weight(tlas, right as int)
            } else {
                1
            },
        }
    } else {
        1
    }
}

/// The number of nodes at and below the nodes on the stack.
pub open spec fn tlas_stack_weight(tlas: Tlas, stack: Seq<usize>) -> nat
    decreases stack.len(),
{
    if stack.len() == 0 {
        0
    } else {
        tlas_weight(tlas, stack.last() as int) + tlas_stack_weight(tlas, stack.drop_last())
    }
}

impl Ray {
    /// Finds the nearest triangle of the scene that the ray passes through
    /// before its current best distance, and returns the ray's hit.
    ///
    /// The scene's tree is walked with a stack, nearer child first; a child
    /// whose box the ray does not enter before its best distance is left out.
    /// A scene without instances is hit nowhere.
    pub fn intersect_tlas(&mut self, tlas: &Tlas) -> (r: Option<Hit>)
        requires
            tlas.structured(),
        ensures
            *final(self) == after_tlas(*tlas, *old(self)),
            r == final(self).hit,
    {
        if tlas.nodes.len() == 0 {
            return self.hit;
        }
        let mut stack: Vec<usize> = Vec::with_capacity(64);
        let mut node_idx: usize = 0;
        loop
            invariant_except_break
                node_idx < tlas.nodes.len(),
                after_tlas_stack(*tlas, after_tlas_node(*tlas, *self, node_idx as int), stack@)
                    == after_tlas_node(*tlas, *old(self), 0),
            invariant
                tlas.structured(),
                forall|k: int| 0 <= k < stack@.len() ==> #[trigger] stack@[k] < tlas.nodes.len(),
            ensures
                *self == after_tlas_node(*tlas, *old(self), 0),
            decreases tlas_weight(*tlas, node_idx as int) + tlas_stack_weight(*tlas, stack@),
        {
            let node: TlasNode = tlas.nodes[node_idx];
            proof {
                assert(tlas.node_shaped(node_idx as int));
            }
            let mut descend: bool = false;
            match node.kind {
                TlasKind::Leaf { instance } => {
                    proof {
                        assert(tlas.instances@[instance as int].bvh_index < tlas.bvhs@.len());
                        assert(tlas.bvhs@[tlas.instances@[instance as int].bvh_index as int].structured());
                    }
                    self.intersect_bvh_instance(&tlas.instances[instance], &tlas.bvhs);
                },
                TlasKind::Interior { left, right } => {
                    let n1: TlasNode = tlas.nodes[left];
                    let n2: TlasNode = tlas.nodes[right];
                    let d1: Option<i64> = self.intersect_aabb(n1.aabb_min, n1.aabb_max);
                    let d2: Option<i64> = self.intersect_aabb(n2.aabb_min, n2.aabb_max);
                    let swap: bool = match (d1, d2) {
                        (Some(a), Some(b)) => a > b,
                        (None, Some(_)) => true,
                        _ => false,
                    };
                    let (near, dnear, far, dfar) = if swap {
                        (right, d2, left, d1)
                    } else {
                        (left, d1, right, d2)
                    };
                    if dnear.is_some() {
                        if dfar.is_some() {
                            proof {
                                assert(stack@.push(far).drop_last() =~= stack@);
                            }
                            stack.push(far);
                        }
                        node_idx = near;
                        descend = true;
                    }
                },
            }
            if !descend {
                if stack.len() == 0 {
                    break ;
                }
                let ghost before = stack@;
                node_idx = stack.pop().unwrap();
                proof {
                    assert(stack@ =~= before.drop_last());
                }
            }
        }
        self.hit
    }
}


impl Bvh {
    /// Tells whether the hierarchy is fit for a query: whether every
    /// reference in it is in range and children come after their parent.
    pub fn is_structured(&self) -> (ok: bool)
        ensures
            ok == self.structured(),
    {
        if self.tri_indices.len() != self.tris.len() || self.nodes.len() == 0 {
            return false;
        }
        let mut k: usize = 0;
        while k < self.tri_indices.len()
            invariant
                k <= self.tri_indices.len(),
                forall|j: int| 0 <= j < k ==> (#[trigger] self.tri_indices@[j]) < self.tris@.len(),
            decreases self.tri_indices.len() - k,
        {
            if self.tri_indices[k] >= self.tris.len() {
                return false;
            }
            k += 1;
        }
        let mut i: usize = 0;
        while i < self.nodes.len()
            invariant
                i <= self.nodes.len(),
                forall|j: int| 0 <= j < i ==> #[trigger] self.node_shaped(j),
            decreases self.nodes.len() - i,
        {
            let n: BvhNode = self.nodes[i];
            let shaped: bool = if n.tri_count > 0 {
                n.left_first as u64 + n.tri_count as u64 <= self.tri_indices.len() as u64
            } else if n.left_first > 0 {
                i < n.left_first as usize && (n.left_first as u64) + 1 < self.nodes.len() as u64
            } else {
                true
            };
            if !shaped {
                proof {
                    assert(!self.node_shaped(i as int));
                }
                return false;
            }
            i += 1;
        }
        true
    }
}

impl Tlas {
    /// Tells whether the scene is fit for a query: whether every node, every
    /// instance and every mesh refers only to what exists, and every mesh is
    /// fit for a query itself.
    pub fn is_structured(&self) -> (ok: bool)
        ensures
            ok == self.structured(),
    {
        let mut j: usize = 0;
        while j < self.bvhs.len()
            invariant
                j <= self.bvhs.len(),
                forall|q: int| 0 <= q < j ==> (#[trigger] self.bvhs@[q]).structured(),
            decreases self.bvhs.len() - j,
        {
            if !self.bvhs[j].is_structured() {
                return false;
            }
            j += 1;
        }
        let mut k: usize = 0;
        while k < self.instances.len()
            invariant
                k <= self.instances.len(),
                forall|q: int|
                    0 <= q < k ==> (#[trigger] self.instances@[q]).bvh_index < self.bvhs@.len(),
            decreases self.instances.len() - k,
        {
            if self.instances[k].bvh_index >= self.bvhs.len() {
                return false;
            }
            k += 1;
        }
        let mut i: usize = 0;
        while i < self.nodes.len()
            invariant
                i <= self.nodes.len(),
                forall|q: int| 0 <= q < i ==> #[trigger] self.node_shaped(q),
            decreases self.nodes.len() - i,
        {
            let shaped: bool = match self.nodes[i].kind {
                TlasKind::Leaf { instance } => instance < self.instances.len(),
                TlasKind::Interior { left, right } => 1 <= left && left < self.nodes.len() && 1
                    <= right && right < self.nodes.len() && (i == 0 || (left < i && right < i)),
            };
            if !shaped {
                proof {
                    assert(!self.node_shaped(i as int));
                }
                return false;
            }
            i += 1;
        }
        true
    }
}

} // verus!

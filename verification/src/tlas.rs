//! The top-level hierarchy over placed instances.

use vstd::prelude::*;
use crate::aabb::Aabb;
use crate::bvh::{all_of, Bvh, BvhNode};
use crate::instance::{world_box, BvhInstance};
use crate::transform::Transform;
use crate::vec3::Vec3;

verus! {

/// The most instances that one top-level hierarchy can hold.
pub const MAX_INSTANCES: usize = 0x7fff_ffff;

/// What a node of the top-level hierarchy stands for: one instance, or the
/// two nodes that were merged into it.
#[derive(Clone, Copy, Debug, PartialEq, Eq, Structural)]
pub enum TlasKind {
    Leaf { instance: usize },
    Interior { left: usize, right: usize },
}

/// One node of a [`Tlas`].
#[derive(Clone, Copy, Debug)]
pub struct TlasNode {
    pub aabb_min: Vec3,
    pub aabb_max: Vec3,
    pub kind: TlasKind,
}

impl TlasNode {
    /// The node's box.
    pub open spec fn aabb(self) -> Aabb {
        Aabb { bmin: self.aabb_min, bmax: self.aabb_max }
    }

    pub fn is_leaf(&self) -> (r: bool)
        ensures
            r == (self.kind is Leaf),
    {
        match self.kind {
            TlasKind::Leaf { .. } => true,
            TlasKind::Interior { .. } => false,
        }
    }
}

impl Default for TlasNode {
    fn default() -> (r: TlasNode)
        ensures
            r.kind == (TlasKind::Leaf { instance: 0 }),
            r.aabb_min == (Vec3 { x: 0, y: 0, z: 0 }),
            r.aabb_max == (Vec3 { x: 0, y: 0, z: 0 }),
    {
        TlasNode {
            aabb_min: Vec3::splat(0),
            aabb_max: Vec3::splat(0),
            kind: TlasKind::Leaf { instance: 0 },
        }
    }
}

/// The hierarchies of a scene, their placements, and the tree over the placements.
pub struct Tlas {
    pub nodes: Vec<TlasNode>,
    pub instances: Vec<BvhInstance>,
    pub bvhs: Vec<Bvh>,
}

/// The area of the least box around the boxes of nodes `x` and `y`.
pub open spec fn pair_area(nodes: Seq<TlasNode>, x: int, y: int) -> int {
    nodes[x].aabb().spec_union(nodes[y].aabb()).spec_area()
}

/// Among the first `n` entries of `list`, entry `r` is the best match of
/// entry `a`: another entry whose node makes the least box together with the
/// node of `a`, and the first such entry. It is `None` if there is no other entry.
pub open spec fn is_best_match(
    nodes: Seq<TlasNode>,
    list: Seq<usize>,
    n: int,
    a: int,
    r: Option<usize>,
) -> bool {
    match r {
        None => n <= 0 || (n == 1 && a == 0),
        Some(b) => {
            &&& 0 <= b < n
            &&& b != a
            &&& forall|b2: int|
                0 <= b2 < n && b2 != a ==> pair_area(nodes, list[a] as int, list[b as int] as int)
                    <= pair_area(nodes, list[a] as int, (#[trigger] list[b2]) as int) && (b2 < b
                    ==> pair_area(nodes, list[a] as int, list[b as int] as int) < pair_area(
                    nodes,
                    list[a] as int,
                    list[b2] as int,
                ))
        },
    }
}

/// The best match of entry `a` among the first `n` entries of `list`.
pub open spec fn best_match(nodes: Seq<TlasNode>, list: Seq<usize>, n: int, a: int) -> Option<
    usize,
> {
    choose|r: Option<usize>| is_best_match(nodes, list, n, a, r)
}

/// There is only one best match.
pub proof fn lemma_best_match_unique(
    nodes: Seq<TlasNode>,
    list: Seq<usize>,
    n: int,
    a: int,
    r: Option<usize>,
)
    requires
        is_best_match(nodes, list, n, a, r),
    ensures
        best_match(nodes, list, n, a) == r,
{
    let q = best_match(nodes, list, n, a);
    assert(is_best_match(nodes, list, n, a, q));
    if let Some(b1) = r {
        if let Some(b2) = q {
            assert(pair_area(nodes, list[a] as int, list[b1 as int] as int) <= pair_area(
                nodes,
                list[a] as int,
                list[b2 as int] as int,
            ));
            assert(pair_area(nodes, list[a] as int, list[b2 as int] as int) <= pair_area(
                nodes,
                list[a] as int,
                list[b1 as int] as int,
            ));
        }
    }
}

/// The first map in `transforms` that is keyed by `owner`.
pub open spec fn lookup(transforms: Seq<(u64, Transform)>, owner: u64) -> Option<Transform>
    decreases transforms.len(),
{
    if transforms.len() == 0 {
        None
    } else if transforms[0].0 == owner {
        Some(transforms[0].1)
    } else {
        lookup(transforms.subrange(1, transforms.len() as int), owner)
    }
}

/// The placement `inst` after it has been placed anew by `t`, if there is one.
pub open spec fn placed_by(inst: BvhInstance, t: Option<Transform>, root: BvhNode) -> BvhInstance {
    match t {
        None => inst,
        Some(t) => BvhInstance {
            bvh_index: inst.bvh_index,
            inv_trans: t.spec_inverse(),
            bounds: world_box(t, root.aabb()),
            owner: inst.owner,
        },
    }
}

impl Tlas {
    /// How far node `i` is from the bottom: the root counts as above all others.
    pub open spec fn rank(&self, i: int) -> int {
        if i == 0 {
            self.nodes@.len() as int
        } else {
            i
        }
    }

    /// The children `left` and `right` of node `i` exist and lie below it.
    pub open spec fn children_below(&self, i: int, left: usize, right: usize) -> bool {
        &&& 1 <= left < self.nodes@.len()
        &&& 1 <= right < self.nodes@.len()
        &&& i > 0 ==> left < i && right < i
    }

    /// Node `i` refers only to an instance or to nodes that exist and lie below it.
    pub open spec fn node_shaped(&self, i: int) -> bool {
        match self.nodes@[i].kind {
            TlasKind::Leaf { instance } => instance < self.instances@.len(),
            TlasKind::Interior { left, right } => self.children_below(i, left, right),
        }
    }

    /// Every instance names a hierarchy that exists and has a root.
    pub open spec fn rooted(&self) -> bool {
        forall|k: int|
            0 <= k < self.instances@.len() ==> (#[trigger] self.instances@[k]).bvh_index
                < self.bvhs@.len() && self.bvhs@[self.instances@[k].bvh_index as int].nodes@.len()
                >= 1
    }

    /// Every instance names a hierarchy that exists and that a query can walk.
    pub open spec fn placed(&self) -> bool {
        &&& forall|k: int|
            0 <= k < self.instances@.len() ==> (#[trigger] self.instances@[k]).bvh_index
                < self.bvhs@.len()
        &&& forall|j: int| 0 <= j < self.bvhs@.len() ==> (#[trigger] self.bvhs@[j]).structured()
    }

    /// What a query needs of the scene.
    pub open spec fn structured(&self) -> bool {
        &&& self.placed()
        &&& forall|i: int| 0 <= i < self.nodes@.len() ==> #[trigger] self.node_shaped(i)
    }

    /// The numbers of the instances below node `i`.
    pub open spec fn leaves_below(&self, i: int) -> Set<int>
        decreases self.rank(i),
    {
        if 0 <= i < self.nodes@.len() {
            match self.nodes@[i].kind {
                TlasKind::Leaf { instance } => Set::empty().insert(instance as int),
                TlasKind::Interior { left, right } => if self.children_below(i, left, right) {
                    self.leaves_below(left as int).union(self.leaves_below(right as int))
                } else {
                    Set::empty()
                },
            }
        } else {
            Set::empty()
        }
    }

    /// Node `i` is as `build` leaves it: a leaf has the box of its instance,
    /// an interior node the least box around the boxes of its two children.
    pub open spec fn node_wf(&self, i: int) -> bool {
        let nd = self.nodes@[i];
        match nd.kind {
            TlasKind::Leaf { instance } => {
                &&& instance < self.instances@.len()
                &&& nd.aabb() == self.instances@[instance as int].bounds
            },
            TlasKind::Interior { left, right } => {
                &&& self.children_below(i, left, right)
                &&& left != right
                &&& nd.aabb() == self.nodes@[left as int].aabb().spec_union(
                    self.nodes@[right as int].aabb(),
                )
            },
        }
    }

    /// The tree is as `build` leaves it. Over no instance it has no node. Over
    /// `n >= 1` instances it has `2 n - 1` nodes, of which node 0 is the root,
    /// and every instance lies below the root; for `n >= 2` instance `k` is
    /// the leaf at node `k + 1`.
    pub open spec fn built(&self) -> bool {
        let n = self.instances@.len();
        &&& n == 0 ==> self.nodes@.len() == 0
        &&& n >= 1 ==> self.nodes@.len() == 2 * n - 1 && self.leaves_below(0) == all_of(n)
        &&& n >= 2 ==> forall|k: int|
            0 <= k < n ==> (#[trigger] self.nodes@[k + 1]).kind == (TlasKind::Leaf {
                instance: k as usize,
            })
        &&& forall|i: int| 0 <= i < self.nodes@.len() ==> #[trigger] self.node_wf(i)
    }

    /// Adds a hierarchy to the scene and returns its number.
    pub fn add_bvh(&mut self, bvh: Bvh) -> (r: usize)
        ensures
            r == old(self).bvhs@.len(),
            final(self).bvhs@ == old(self).bvhs@.push(bvh),
            final(self).nodes@ == old(self).nodes@,
            final(self).instances@ == old(self).instances@,
    {
        self.bvhs.push(bvh);
        self.bvhs.len() - 1
    }

    /// Adds a placement to the scene. The tree is not rebuilt.
    pub fn add_instance(&mut self, instance: BvhInstance)
        ensures
            final(self).instances@ == old(self).instances@.push(instance),
            final(self).nodes@ == old(self).nodes@,
            final(self).bvhs@ == old(self).bvhs@,
    {
        self.instances.push(instance);
    }

    /// Looks among the first `n` entries of `list` for the best match of
    /// entry `a`: the other entry whose node makes the least box together
    /// with the node of `a`.
    pub fn find_best_match(&self, list: &Vec<usize>, n: usize, a: usize) -> (r: Option<usize>)
        requires
            n <= list.len(),
            a < list.len(),
            forall|s: int| (0 <= s < n || s == a) ==> (#[trigger] list@[s]) < self.nodes.len(),
        ensures
            is_best_match(self.nodes@, list@, n as int, a as int, r),
            r == best_match(self.nodes@, list@, n as int, a as int),
    {
        let mut best: Option<usize> = None;
        let mut smallest: i128 = 0;
        let mut b: usize = 0;
        let na: TlasNode = self.nodes[list[a]];
        while b < n
            invariant
                b <= n,
                n <= list.len(),
                a < list.len(),
                forall|s: int| (0 <= s < n || s == a) ==> (#[trigger] list@[s]) < self.nodes.len(),
                na == self.nodes@[list@[a as int] as int],
                is_best_match(self.nodes@, list@, b as int, a as int, best),
                best is Some ==> smallest == pair_area(
                    self.nodes@,
                    list@[a as int] as int,
                    list@[best->0 as int] as int,
                ),
            decreases n - b,
        {
            if b != a {
                let nb: TlasNode = self.nodes[list[b]];
                let joined = Aabb {
                    bmin: na.aabb_min.min(nb.aabb_min),
                    bmax: na.aabb_max.max(nb.aabb_max),
                };
                let area: i128 = joined.area();
                let better: bool = match best {
                    None => true,
                    Some(_) => area < smallest,
                };
                if better {
                    smallest = area;
                    best = Some(b);
                }
            }
            b += 1;
        }
        proof {
            lemma_best_match_unique(self.nodes@, list@, n as int, a as int, best);
        }
        best
    }

    /// Places every instance anew whose owner has a map in `transforms`: the
    /// inverse of the first map keyed by the owner is stored, and the box
    /// that the instance's hierarchy takes up under the map. The tree is not
    /// rebuilt.
    pub fn update_bvh(&mut self, transforms: &Vec<(u64, Transform)>)
        requires
            old(self).rooted(),
        ensures
            final(self).nodes@ == old(self).nodes@,
            final(self).bvhs@ == old(self).bvhs@,
            final(self).instances@.len() == old(self).instances@.len(),
            forall|k: int|
                0 <= k < old(self).instances@.len() ==> #[trigger] final(self).instances@[k]
                    == placed_by(
                    old(self).instances@[k],
                    lookup(transforms@, old(self).instances@[k].owner),
                    old(self).bvhs@[old(self).instances@[k].bvh_index as int].nodes@[0],
                ),
    {
        let mut i: usize = 0;
        while i < self.instances.len()
            invariant
                i <= self.instances.len(),
                self.nodes@ == old(self).nodes@,
                self.bvhs@ == old(self).bvhs@,
                old(self).rooted(),
                self.instances@.len() == old(self).instances@.len(),
                forall|k: int|
                    i <= k < self.instances@.len() ==> #[trigger] self.instances@[k] == old(self).instances@[k],
                forall|k: int|
                    0 <= k < i ==> #[trigger] self.instances@[k] == placed_by(
                        old(self).instances@[k],
                        lookup(transforms@, old(self).instances@[k].owner),
                        old(self).bvhs@[old(self).instances@[k].bvh_index as int].nodes@[0],
                    ),
            decreases self.instances.len() - i,
        {
            let mut inst: BvhInstance = self.instances[i];
            let found: Option<Transform> = find_transform(transforms, inst.owner);
            if let Some(t) = found {
                let root: BvhNode = self.bvhs[inst.bvh_index].nodes[0];
                inst.update(&t, &root);
                self.instances[i] = inst;
            }
            i += 1;
        }
    }
}

impl Default for Tlas {
    fn default() -> (r: Tlas)
        ensures
            r.nodes@.len() == 0,
            r.instances@.len() == 0,
            r.bvhs@.len() == 0,
    {
        Tlas { nodes: Vec::new(), instances: Vec::new(), bvhs: Vec::new() }
    }
}

/// The first map in `transforms` that is keyed by `owner`.
fn find_transform(transforms: &Vec<(u64, Transform)>, owner: u64) -> (r: Option<Transform>)
    ensures
        r == lookup(transforms@, owner),
{
    let mut j: usize = 0;
    proof {
        assert(transforms@.subrange(0, transforms@.len() as int) =~= transforms@);
    }
    while j < transforms.len()
        invariant
            j <= transforms.len(),
            lookup(transforms@, owner) == lookup(
                transforms@.subrange(j as int, transforms@.len() as int),
                owner,
            ),
        decreases transforms.len() - j,
    {
        let ghost rest = transforms@.subrange(j as int, transforms@.len() as int);
        proof {
            assert(rest[0] == transforms@[j as int]);
            assert(rest.subrange(1, rest.len() as int) =~= transforms@.subrange(
                j + 1,
                transforms@.len() as int,
            ));
        }
        if transforms[j].0 == owner {
            return Some(transforms[j].1);
        }
        j += 1;
    }
    None
}

} // verus!

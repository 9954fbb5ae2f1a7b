//! Construction of the top-level hierarchy by agglomerative clustering.

use vstd::prelude::*;
use crate::aabb::lemma_area_bounded;
use crate::bvh::all_of;
use crate::instance::BvhInstance;
use crate::tlas::{best_match, is_best_match, pair_area, Tlas, TlasKind, TlasNode, MAX_INSTANCES};
use crate::vec3::Vec3;

verus! {

/// While the tree is built, `cover[i]` is the set of instances below node
/// `i`. Node `i` is in order if it is the leaf of one instance with that
/// instance's box, or the merger of two earlier nodes with the least box
/// around theirs.
pub open spec fn cluster_ok(
    nodes: Seq<TlasNode>,
    insts: Seq<BvhInstance>,
    cover: Seq<Set<int>>,
    i: int,
) -> bool {
    let nd = nodes[i];
    match nd.kind {
        TlasKind::Leaf { instance } => {
            &&& instance < insts.len()
            &&& nd.aabb() == insts[instance as int].bounds
            &&& cover[i] == Set::<int>::empty().insert(instance as int)
        },
        TlasKind::Interior { left, right } => {
            &&& 1 <= left < i
            &&& 1 <= right < i
            &&& left != right
            &&& nd.aabb() == nodes[left as int].aabb().spec_union(nodes[right as int].aabb())
            &&& cover[i] == cover[left as int].union(cover[right as int])
        },
    }
}

/// The state between two steps of the clustering: the first `n` entries of
/// `list` name the clusters that are still to be merged; together they hold
/// every instance.
pub open spec fn clustering(
    nodes: Seq<TlasNode>,
    insts: Seq<BvhInstance>,
    list: Seq<usize>,
    n: int,
    cover: Seq<Set<int>>,
) -> bool {
    let big = insts.len() as int;
    &&& 2 <= big <= MAX_INSTANCES
    &&& 1 <= n <= big
    &&& nodes.len() == 1 + big + (big - n)
    &&& cover.len() == nodes.len()
    &&& list.len() == big
    &&& forall|s: int| 0 <= s < big ==> 1 <= #[trigger] list[s] < nodes.len()
    &&& forall|s1: int, s2: int| 0 <= s1 < s2 < n ==> list[s1] != list[s2]
    &&& forall|k: int|
        0 <= k < big ==> (#[trigger] nodes[k + 1]).kind == (TlasKind::Leaf { instance: k as usize })
    &&& forall|i: int| 1 <= i < nodes.len() ==> #[trigger] cluster_ok(nodes, insts, cover, i)
    &&& forall|k: int| 0 <= k < big ==> #[trigger] held(cover, list, n, k)
}

/// One of the first `n` clusters of `list` holds instance `k`.
pub open spec fn held(cover: Seq<Set<int>>, list: Seq<usize>, n: int, k: int) -> bool {
    exists|s: int| 0 <= s < n && #[trigger] cover[list[s] as int].contains(k)
}

/// The least box around two boxes does not depend on their order.
pub proof fn lemma_pair_area_symmetric(nodes: Seq<TlasNode>, x: int, y: int)
    ensures
        pair_area(nodes, x, y) == pair_area(nodes, y, x),
{
    assert(nodes[x].aabb().spec_union(nodes[y].aabb()) == nodes[y].aabb().spec_union(
        nodes[x].aabb(),
    ));
}

/// Merging the clusters at entries `a` and `b` into a new last node keeps the state in order.
proof fn lemma_merge(
    nodes: Seq<TlasNode>,
    insts: Seq<BvhInstance>,
    list: Seq<usize>,
    n: int,
    cover: Seq<Set<int>>,
    a: int,
    b: int,
    merged: TlasNode,
)
    requires
        clustering(nodes, insts, list, n, cover),
        n >= 3,
        0 <= a < n,
        0 <= b < n,
        a != b,
        merged.kind == (TlasKind::Interior { left: list[a], right: list[b] }),
        merged.aabb() == nodes[list[a] as int].aabb().spec_union(nodes[list[b] as int].aabb()),
    ensures
        clustering(
            nodes.push(merged),
            insts,
            list.update(a, nodes.len() as usize).update(
                b,
                list.update(a, nodes.len() as usize)[n - 1],
            ),
            n - 1,
            cover.push(cover[list[a] as int].union(cover[list[b] as int])),
        ),
{
    let big = insts.len() as int;
    let fresh = nodes.len() as usize;
    let nodes2 = nodes.push(merged);
    let list1 = list.update(a, fresh);
    let list2 = list1.update(b, list1[n - 1]);
    let cover2 = cover.push(cover[list[a] as int].union(cover[list[b] as int]));
    let home = if a == n - 1 {
        b
    } else {
        a
    };
    assert(list2[home] == fresh);
    assert forall|i: int| 1 <= i < nodes2.len() implies #[trigger] cluster_ok(
        nodes2,
        insts,
        cover2,
        i,
    ) by {
        if i < nodes.len() {
            assert(cluster_ok(nodes, insts, cover, i));
        }
    }
    assert forall|k: int| 0 <= k < big implies (#[trigger] nodes2[k + 1]).kind == (TlasKind::Leaf {
        instance: k as usize,
    }) by {
        assert(nodes2[k + 1] == nodes[k + 1]);
    }
    assert forall|k: int| 0 <= k < big implies #[trigger] held(cover2, list2, n - 1, k) by {
        assert(held(cover, list, n, k));
        let s = choose|s: int| 0 <= s < n && #[trigger] cover[list[s] as int].contains(k);
        if s == a || s == b {
            assert(cover2[list2[home] as int].contains(k));
        } else if s == n - 1 {
            assert(list2[b] == list[n - 1]);
            assert(cover2[list2[b] as int].contains(k));
        } else {
            assert(list2[s] == list[s]);
            assert(cover2[list2[s] as int].contains(k));
        }
    }
}

/// The leaf for instance `k`.
pub open spec fn leaf_node(insts: Seq<BvhInstance>, k: int) -> TlasNode {
    TlasNode {
        aabb_min: insts[k].bounds.bmin,
        aabb_max: insts[k].bounds.bmax,
        kind: TlasKind::Leaf { instance: k as usize },
    }
}

/// The node into which the nodes `x` and `y` are merged.
pub open spec fn merged_node(nodes: Seq<TlasNode>, x: usize, y: usize) -> TlasNode {
    TlasNode {
        aabb_min: nodes[x as int].aabb_min.spec_min(nodes[y as int].aabb_min),
        aabb_max: nodes[x as int].aabb_max.spec_max(nodes[y as int].aabb_max),
        kind: TlasKind::Interior { left: x, right: y },
    }
}

/// The nodes that the clustering starts from: the place of the root, then
/// one leaf for each instance.
pub open spec fn first_nodes(insts: Seq<BvhInstance>) -> Seq<TlasNode> {
    Seq::new(
        insts.len() + 1,
        |i: int|
            if i == 0 {
                TlasNode {
                    aabb_min: Vec3 { x: 0, y: 0, z: 0 },
                    aabb_max: Vec3 { x: 0, y: 0, z: 0 },
                    kind: TlasKind::Leaf { instance: 0 },
                }
            } else {
                leaf_node(insts, i - 1)
            },
    )
}

/// The list of clusters that the clustering starts from: every leaf.
pub open spec fn first_list(n: nat) -> Seq<usize> {
    Seq::new(n, |s: int| (s + 1) as usize)
}

/// Entries `a` and `b` are two of the first `n` of the list, and `b` is the
/// best match of `a`.
pub open spec fn matched(nodes: Seq<TlasNode>, list: Seq<usize>, n: int, a: int, b: int) -> bool {
    &&& 0 <= a < n
    &&& 0 <= b < n
    &&& a != b
    &&& n <= list.len()
    &&& is_best_match(nodes, list, n, a, Some(b as usize))
}

/// The nodes at the end of the clustering that stands at entries `a` and `b`
/// of the `n` clusters of `list`.
///
/// With more than two clusters left, the best match `c` of `b` is looked up.
/// If it is `a`, the two are each other's best match and are merged: the new
/// node is put last and takes the place of `a` in the list, the last cluster
/// of the list takes the place of `b`, and the clustering goes on from the
/// new node and its best match. If it is not, the clustering goes on from
/// `b` and `c`. The two clusters that are left at the end make the root,
/// node 0.
pub open spec fn clustered(nodes: Seq<TlasNode>, list: Seq<usize>, n: int, a: int, b: int) -> Seq<
    TlasNode,
>
    decreases n, pair_area(nodes, list[a] as int, list[b] as int) + 0x3_0000_0000_0000_0000, a + b,
{
    if n > 2 && matched(nodes, list, n, a, b) {
        let found = best_match(nodes, list, n, b);
        if found is Some && is_best_match(nodes, list, n, b, found) {
            let c = found->0 as int;
            if c == a {
                let nodes2 = nodes.push(merged_node(nodes, list[a], list[b]));
                let list1 = list.update(a, nodes.len() as usize);
                let list2 = list1.update(b, list1[n - 1]);
                let a2 = if a == n - 1 {
                    b
                } else {
                    a
                };
                let next = best_match(nodes2, list2, n - 1, a2);
                if next is Some {
                    clustered(nodes2, list2, n - 1, a2, next->0 as int)
                } else {
                    nodes2
                }
            } else {
                proof {
                    lemma_pair_area_symmetric(nodes, list[a] as int, list[b] as int);
                    lemma_area_bounded(
                        nodes[list[a] as int].aabb().spec_union(nodes[list[b] as int].aabb()),
                    );
                    lemma_area_bounded(
                        nodes[list[b] as int].aabb().spec_union(nodes[list[c] as int].aabb()),
                    );
                }
                clustered(nodes, list, n, b, c)
            }
        } else {
            nodes
        }
    } else {
        nodes.update(0, merged_node(nodes, list[a], list[b]))
    }
}

/// The tree that `build` makes over the instances.
pub open spec fn tree_over(insts: Seq<BvhInstance>) -> Seq<TlasNode> {
    if insts.len() == 0 {
        Seq::empty()
    } else if insts.len() == 1 {
        Seq::empty().push(leaf_node(insts, 0))
    } else {
        let nodes = first_nodes(insts);
        let list = first_list(insts.len());
        clustered(
            nodes,
            list,
            insts.len() as int,
            0,
            best_match(nodes, list, insts.len() as int, 0)->0 as int,
        )
    }
}

/// Below every node but the root lie the instances of its cover, and
/// they are instances that exist.
proof fn lemma_leaves_cover(tlas: Tlas, list: Seq<usize>, n: int, cover: Seq<Set<int>>, i: int)
    requires
        clustering(tlas.nodes@, tlas.instances@, list, n, cover),
        1 <= i < tlas.nodes@.len(),
    ensures
        tlas.leaves_below(i) == cover[i],
        cover[i].subset_of(all_of(tlas.instances@.len())),
    decreases i,
{
    assert(cluster_ok(tlas.nodes@, tlas.instances@, cover, i));
    match tlas.nodes@[i].kind {
        TlasKind::Leaf { instance } => {},
        TlasKind::Interior { left, right } => {
            lemma_leaves_cover(tlas, list, n, cover, left as int);
            lemma_leaves_cover(tlas, list, n, cover, right as int);
        },
    }
}

/// Once the last two clusters have been merged into the root, the tree is as it should be.
proof fn lemma_rooted(tlas: Tlas, list: Seq<usize>, cover: Seq<Set<int>>, a: int, b: int)
    requires
        clustering(tlas.nodes@, tlas.instances@, list, 2, cover),
        0 <= a < 2,
        0 <= b < 2,
        a != b,
        tlas.nodes@[0].kind == (TlasKind::Interior { left: list[a], right: list[b] }),
        tlas.nodes@[0].aabb() == tlas.nodes@[list[a] as int].aabb().spec_union(
            tlas.nodes@[list[b] as int].aabb(),
        ),
    ensures
        tlas.built(),
        forall|i: int| 0 <= i < tlas.nodes@.len() ==> #[trigger] tlas.node_shaped(i),
{
    let big = tlas.instances@.len();
    let la = list[a] as int;
    let lb = list[b] as int;
    lemma_leaves_cover(tlas, list, 2, cover, la);
    lemma_leaves_cover(tlas, list, 2, cover, lb);
    assert(tlas.children_below(0, list[a], list[b]));
    assert(tlas.leaves_below(0) == cover[la].union(cover[lb]));
    assert forall|k: int| 0 <= k < big implies tlas.leaves_below(0).contains(k) by {
        assert(held(cover, list, 2, k));
        let s = choose|s: int| 0 <= s < 2 && #[trigger] cover[list[s] as int].contains(k);
        assert(s == a || s == b);
    }
    assert(tlas.leaves_below(0) =~= all_of(big));
    assert forall|i: int| 0 <= i < tlas.nodes@.len() implies #[trigger] tlas.node_wf(i) by {
        if i >= 1 {
            assert(cluster_ok(tlas.nodes@, tlas.instances@, cover, i));
        }
    }
    assert forall|i: int| 0 <= i < tlas.nodes@.len() implies #[trigger] tlas.node_shaped(i) by {
        assert(tlas.node_wf(i));
    }
}

impl Tlas {
    /// Builds the tree over the instances anew, from the bottom up: each
    /// instance starts as a cluster of its own, and time and again two
    /// clusters are merged that are each other's best match, until one is
    /// left, which is the root.
    pub fn build(&mut self)
        requires
            old(self).instances.len() <= MAX_INSTANCES,
        ensures
            final(self).instances@ == old(self).instances@,
            final(self).bvhs@ == old(self).bvhs@,
            final(self).built(),
            old(self).placed() ==> final(self).structured(),
            final(self).nodes@ == tree_over(old(self).instances@),
    {
        let count: usize = self.instances.len();
        self.nodes = Vec::with_capacity(0);
        if count == 0 {
            return ;
        }
        if count == 1 {
            let only: BvhInstance = self.instances[0];
            self.nodes.push(
                TlasNode {
                    aabb_min: only.bounds.bmin,
                    aabb_max: only.bounds.bmax,
                    kind: TlasKind::Leaf { instance: 0 },
                },
            );
            proof {
                assert(self.node_wf(0));
                assert(self.node_shaped(0));
                assert(self.leaves_below(0) =~= all_of(1));
            }
            return ;
        }
        // Node 0 is kept for the root, which is made last.

        self.nodes.push(TlasNode::default());
        let mut node_index: Vec<usize> = Vec::with_capacity(count);
        let ghost mut cover: Seq<Set<int>> = seq![Set::<int>::empty()];
        let mut i: usize = 0;
        while i < count
            invariant
                i <= count,
                count == self.instances.len(),
                2 <= count <= MAX_INSTANCES,
                self.instances@ == old(self).instances@,
                self.bvhs@ == old(self).bvhs@,
                self.nodes@.len() == i + 1,
                cover.len() == i + 1,
                node_index@.len() == i,
                forall|s: int| 0 <= s < i ==> #[trigger] node_index@[s] == s + 1,
                forall|k: int|
                    0 <= k < i ==> #[trigger] self.nodes@[k + 1] == leaf_node(self.instances@, k),
                self.nodes@[0] == first_nodes(self.instances@)[0],
                forall|j: int|
                    1 <= j <= i ==> #[trigger] cluster_ok(self.nodes@, self.instances@, cover, j),
                forall|k: int| 0 <= k < i ==> (#[trigger] cover[k + 1]).contains(k),
            decreases count - i,
        {
            let inst: BvhInstance = self.instances[i];
            let ghost prev = cover;
            let ghost prev_nodes = self.nodes@;
            node_index.push(i + 1);
            self.nodes.push(
                TlasNode {
                    aabb_min: inst.bounds.bmin,
                    aabb_max: inst.bounds.bmax,
                    kind: TlasKind::Leaf { instance: i },
                },
            );
            proof {
                cover = cover.push(Set::<int>::empty().insert(i as int));
                assert forall|j: int| 1 <= j <= i + 1 implies #[trigger] cluster_ok(
                    self.nodes@,
                    self.instances@,
                    cover,
                    j,
                ) by {
                    if j <= i {
                        assert(cluster_ok(prev_nodes, self.instances@, prev, j));
                    }
                }
                assert forall|k: int| 0 <= k < i + 1 implies #[trigger] self.nodes@[k + 1]
                    == leaf_node(self.instances@, k) by {
                    if k < i {
                        assert(self.nodes@[k + 1] == prev_nodes[k + 1]);
                    }
                }
            }
            i += 1;
        }
        let mut n: usize = count;
        let mut a: usize = 0;
        proof {
            assert forall|k: int| 0 <= k < count implies #[trigger] held(
                cover,
                node_index@,
                n as int,
                k,
            ) by {
                assert(node_index@[k] == k + 1);
                assert(cover[k + 1].contains(k));
                assert(cover[node_index@[k] as int].contains(k));
            }
            assert(clustering(self.nodes@, self.instances@, node_index@, n as int, cover));
        }
        let mut b: usize = match self.find_best_match(&node_index, n, a) {
            Some(b) => b,
            None => 0,
        };
        proof {
            assert forall|j: int| 0 <= j < self.nodes@.len() implies self.nodes@[j] == first_nodes(
                self.instances@,
            )[j] by {
                if j > 0 {
                    assert(self.nodes@[(j - 1) + 1] == leaf_node(self.instances@, j - 1));
                }
            }
            assert(self.nodes@ =~= first_nodes(self.instances@));
            assert(node_index@ =~= first_list(count as nat));
        }
        while n > 2
            invariant
                count == self.instances.len(),
                clustered(self.nodes@, node_index@, n as int, a as int, b as int) == tree_over(
                    old(self).instances@,
                ),
                self.instances@ == old(self).instances@,
                self.bvhs@ == old(self).bvhs@,
                n >= 2,
                clustering(self.nodes@, self.instances@, node_index@, n as int, cover),
                a < n,
                b < n,
                a != b,
                is_best_match(self.nodes@, node_index@, n as int, a as int, Some(b)),
            decreases
                    n,
                    pair_area(
                        self.nodes@,
                        node_index@[a as int] as int,
                        node_index@[b as int] as int,
                    ) + 0x3_0000_0000_0000_0000,
                    a + b,
        {
            let c: usize = match self.find_best_match(&node_index, n, b) {
                Some(c) => c,
                None => a,
            };
            proof {
                lemma_pair_area_symmetric(
                    self.nodes@,
                    node_index@[a as int] as int,
                    node_index@[b as int] as int,
                );
                lemma_area_bounded(
                    self.nodes@[node_index@[a as int] as int].aabb().spec_union(
                        self.nodes@[node_index@[b as int] as int].aabb(),
                    ),
                );
                lemma_area_bounded(
                    self.nodes@[node_index@[b as int] as int].aabb().spec_union(
                        self.nodes@[node_index@[c as int] as int].aabb(),
                    ),
                );
            }
            if a == c {
                let ia: usize = node_index[a];
                let ib: usize = node_index[b];
                let na: TlasNode = self.nodes[ia];
                let nb: TlasNode = self.nodes[ib];
                let merged = TlasNode {
                    aabb_min: na.aabb_min.min(nb.aabb_min),
                    aabb_max: na.aabb_max.max(nb.aabb_max),
                    kind: TlasKind::Interior { left: ia, right: ib },
                };
                proof {
                    lemma_merge(
                        self.nodes@,
                        self.instances@,
                        node_index@,
                        n as int,
                        cover,
                        a as int,
                        b as int,
                        merged,
                    );
                    cover = cover.push(cover[ia as int].union(cover[ib as int]));
                }
                self.nodes.push(merged);
                node_index[a] = self.nodes.len() - 1;
                let last: usize = node_index[n - 1];
                node_index[b] = last;
                n -= 1;
                if a == n {
                    a = b;
                }
                b = match self.find_best_match(&node_index, n, a) {
                    Some(b) => b,
                    None => 0,
                };
            } else {
                a = b;
                b = c;
            }
        }
        // The two clusters that are left make the root.

        let ia: usize = node_index[a];
        let ib: usize = node_index[b];
        let na: TlasNode = self.nodes[ia];
        let nb: TlasNode = self.nodes[ib];
        let ghost prev_nodes = self.nodes@;
        self.nodes[0] = TlasNode {
            aabb_min: na.aabb_min.min(nb.aabb_min),
            aabb_max: na.aabb_max.max(nb.aabb_max),
            kind: TlasKind::Interior { left: ia, right: ib },
        };
        proof {
            assert forall|j: int| 1 <= j < self.nodes@.len() implies #[trigger] cluster_ok(
                self.nodes@,
                self.instances@,
                cover,
                j,
            ) by {
                assert(cluster_ok(prev_nodes, self.instances@, cover, j));
            }
            assert forall|k: int| 0 <= k < count implies (#[trigger] self.nodes@[k + 1]).kind == (
            TlasKind::Leaf { instance: k as usize }) by {
                assert(self.nodes@[k + 1] == prev_nodes[k + 1]);
            }
            lemma_rooted(*self, node_index@, cover, a as int, b as int);
        }
    }
}

} // verus!

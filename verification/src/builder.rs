//! Construction of a hierarchy: recursive splitting by the surface-area heuristic.

use vstd::prelude::*;
use crate::aabb::Aabb;
use crate::bounds::{
    bounds_of, holds_tri, is_bounds, lemma_bounds_empty, lemma_bounds_insert, lemma_bounds_unique,
};
use crate::bvh::{
    all_of, leaf_settled, lemma_degenerate_single_leaf, lemma_root_holds_every_triangle, split_by,
    stays_leaf, Bvh, BvhNode, MAX_TRIS,
};
use crate::members::{
    distinct, ids, is_permutation, lemma_identity_permutation, lemma_ids_finite, lemma_ids_len,
    lemma_ids_split, lemma_ids_step, lemma_shuffled_outer, lemma_shuffled_permutation,
    lemma_shuffled_trans, lemma_swap, shuffled, swapped,
};
use crate::sah::{
    best_split, bin_of, flat, is_best_split, key, lemma_cheaper_plane_has_two_sides, Split,
};
use crate::tri::Tri;
use crate::vec3::Vec3;

verus! {

/// The stretch `sp` of the index array holds all of the stretch `f .. f + c`, or none of it.
pub open spec fn around_or_apart(sp: (int, int), f: int, c: int) -> bool {
    (sp.0 <= f && f + c <= sp.0 + sp.1) || sp.0 + sp.1 <= f || f + c <= sp.0
}

/// The stretch `sp` lies inside the stretch `f .. f + c`.
pub open spec fn within(sp: (int, int), f: int, c: int) -> bool {
    f <= sp.0 && sp.0 + sp.1 <= f + c
}

/// While the hierarchy is built, `spans[j]` is the stretch of the index array
/// that node `j` stands for. Node `j` is in order if its box is the least box
/// around that stretch and its children, if it has any, stand for the two
/// sides of the stretch's best plane.
pub open spec fn built(
    nodes: Seq<BvhNode>,
    tris: Seq<Tri>,
    idx: Seq<usize>,
    spans: Seq<(int, int)>,
    j: int,
) -> bool {
    let nd = nodes[j];
    let f = spans[j].0;
    let c = spans[j].1;
    let m = ids(idx, f, c);
    &&& 0 <= f
    &&& 0 <= c
    &&& f + c <= tris.len()
    &&& is_bounds(nd.aabb(), tris, m)
    &&& j > 0 ==> exists|p: int|
        0 <= p < j && (#[trigger] nodes[p]).tri_count == 0 && nodes[p].left_first > 0 && (
        nodes[p].left_first == j || nodes[p].left_first + 1 == j)
    &&& if nd.tri_count > 0 {
        nd.left_first == f && nd.tri_count == c
    } else if nd.left_first > 0 {
        let l = nd.left_first as int;
        &&& j < l
        &&& l + 1 < nodes.len()
        &&& spans[l].0 == f
        &&& 0 < spans[l].1 < c
        &&& spans[l + 1] == (f + spans[l].1, c - spans[l].1)
        &&& split_by(
            tris,
            m,
            ids(idx, f, spans[l].1),
            ids(idx, f + spans[l].1, c - spans[l].1),
            c * nd.aabb().spec_area(),
        )
    } else {
        j == 0 && tris.len() == 0 && c == 0 && f == 0
    }
}

/// Node `j`, if it is a leaf, is one for good: no split of it is due.
pub open spec fn settled(
    nodes: Seq<BvhNode>,
    tris: Seq<Tri>,
    idx: Seq<usize>,
    spans: Seq<(int, int)>,
    j: int,
) -> bool {
    nodes[j].tri_count > 0 ==> leaf_settled(
        tris,
        ids(idx, spans[j].0, spans[j].1),
        nodes[j].spec_cost(),
    )
}

/// The state between two steps of the builder: every node is in order.
pub open spec fn building(
    nodes: Seq<BvhNode>,
    tris: Seq<Tri>,
    idx: Seq<usize>,
    spans: Seq<(int, int)>,
) -> bool {
    &&& tris.len() <= MAX_TRIS
    &&& is_permutation(idx, tris.len() as int)
    &&& nodes.len() >= 1
    &&& spans.len() == nodes.len()
    &&& forall|j: int| 0 <= j < nodes.len() ==> #[trigger] built(nodes, tris, idx, spans, j)
}

/// A node other than `i` keeps being in order when the index array is
/// shuffled within a stretch that every stretch holds all or nothing of, when
/// the leaf `i` is changed, and when nodes are added at the end.
proof fn lemma_frame(
    nodes0: Seq<BvhNode>,
    nodes1: Seq<BvhNode>,
    tris: Seq<Tri>,
    idx0: Seq<usize>,
    idx1: Seq<usize>,
    spans0: Seq<(int, int)>,
    spans1: Seq<(int, int)>,
    f: int,
    c: int,
    i: int,
    j: int,
)
    requires
        0 <= j < nodes0.len(),
        0 <= i < nodes0.len(),
        j != i,
        nodes0[i].tri_count > 0,
        nodes0.len() <= nodes1.len(),
        spans0.len() == nodes0.len(),
        spans1.len() == nodes1.len(),
        idx0.len() == tris.len(),
        forall|q: int| 0 <= q < nodes0.len() ==> #[trigger] spans1[q] == spans0[q],
        forall|q: int| 0 <= q < nodes0.len() && q != i ==> #[trigger] nodes1[q] == nodes0[q],
        forall|q: int| 0 <= q < nodes0.len() ==> around_or_apart(#[trigger] spans0[q], f, c),
        shuffled(idx0, idx1, f, c),
        c >= 0,
        built(nodes0, tris, idx0, spans0, j),
    ensures
        built(nodes1, tris, idx1, spans1, j),
        settled(nodes0, tris, idx0, spans0, j) ==> settled(nodes1, tris, idx1, spans1, j),
{
    let sp = spans0[j];
    assert(spans1[j] == spans0[j]);
    assert(nodes1[j] == nodes0[j]);
    assert(around_or_apart(spans0[j], f, c));
    lemma_shuffled_outer(idx0, idx1, f, c, sp.0, sp.1);
    let nd = nodes0[j];
    if j > 0 {
        let p = choose|p: int|
            0 <= p < j && (#[trigger] nodes0[p]).tri_count == 0 && nodes0[p].left_first > 0 && (
            nodes0[p].left_first == j || nodes0[p].left_first + 1 == j);
        assert(nodes1[p] == nodes0[p]);
    }
    if nd.tri_count == 0 && nd.left_first > 0 {
        let l = nd.left_first as int;
        assert(spans1[l] == spans0[l]);
        assert(spans1[l + 1] == spans0[l + 1]);
        assert(around_or_apart(spans0[l], f, c));
        assert(around_or_apart(spans0[l + 1], f, c));
        lemma_shuffled_outer(idx0, idx1, f, c, spans0[l].0, spans0[l].1);
        lemma_shuffled_outer(idx0, idx1, f, c, spans0[l + 1].0, spans0[l + 1].1);
    }
}

/// What `lemma_frame` says of one node, of all nodes but `i` at once.
proof fn lemma_frame_all(
    nodes0: Seq<BvhNode>,
    nodes1: Seq<BvhNode>,
    tris: Seq<Tri>,
    idx0: Seq<usize>,
    idx1: Seq<usize>,
    spans0: Seq<(int, int)>,
    spans1: Seq<(int, int)>,
    i: int,
)
    requires
        building(nodes0, tris, idx0, spans0),
        0 <= i < nodes0.len(),
        nodes0[i].tri_count > 0,
        nodes0.len() <= nodes1.len(),
        spans1.len() == nodes1.len(),
        forall|q: int| 0 <= q < nodes0.len() ==> #[trigger] spans1[q] == spans0[q],
        forall|q: int| 0 <= q < nodes0.len() && q != i ==> #[trigger] nodes1[q] == nodes0[q],
        forall|q: int|
            0 <= q < nodes0.len() && q != i ==> around_or_apart(
                #[trigger] spans0[q],
                spans0[i].0,
                spans0[i].1,
            ),
        shuffled(idx0, idx1, spans0[i].0, spans0[i].1),
        distinct(idx1),
    ensures
        is_permutation(idx1, tris.len() as int),
        ids(idx1, spans0[i].0, spans0[i].1) == ids(idx0, spans0[i].0, spans0[i].1),
        forall|j: int|
            0 <= j < nodes0.len() && j != i ==> #[trigger] built(nodes1, tris, idx1, spans1, j),
        forall|j: int|
            0 <= j < nodes0.len() && j != i && settled(nodes0, tris, idx0, spans0, j)
                ==> #[trigger] settled(nodes1, tris, idx1, spans1, j),
{
    let f = spans0[i].0;
    let c = spans0[i].1;
    assert(built(nodes0, tris, idx0, spans0, i));
    lemma_shuffled_permutation(idx0, idx1, f, c, tris.len() as int);
    assert forall|q: int| 0 <= q < nodes0.len() implies around_or_apart(
        #[trigger] spans0[q],
        f,
        c,
    ) by {}
    assert forall|j: int| 0 <= j < nodes0.len() && j != i implies #[trigger] built(
        nodes1,
        tris,
        idx1,
        spans1,
        j,
    ) by {
        assert(built(nodes0, tris, idx0, spans0, j));
        lemma_frame(nodes0, nodes1, tris, idx0, idx1, spans0, spans1, f, c, i, j);
    }
    assert forall|j: int|
        0 <= j < nodes0.len() && j != i && settled(
            nodes0,
            tris,
            idx0,
            spans0,
            j,
        ) implies #[trigger] settled(nodes1, tris, idx1, spans1, j) by {
        assert(built(nodes0, tris, idx0, spans0, j));
        lemma_frame(nodes0, nodes1, tris, idx0, idx1, spans0, spans1, f, c, i, j);
    }
}

/// A shuffle within a stretch is a shuffle within any stretch around it.
proof fn lemma_shuffled_widen(a: Seq<usize>, b: Seq<usize>, f: int, c: int, f2: int, c2: int)
    requires
        shuffled(a, b, f, c),
        c >= 0,
        0 <= f2 <= f,
        f + c <= f2 + c2 <= a.len(),
    ensures
        shuffled(a, b, f2, c2),
{
    lemma_shuffled_outer(a, b, f, c, f2, c2);
}

/// The triangle listed at position `p` lies to the left of the plane.
pub open spec fn lies_left(tris: Seq<Tri>, idx: Seq<usize>, p: int, s: Split) -> bool {
    bin_of(key(tris, idx[p] as int, s.axis as int), s.lo as int, s.ext as int) < s.plane
}

/// The index array after the stretch `i .. j` has been sifted by the plane,
/// and the position of the first triangle that is not to the left of it. A
/// triangle at `i` that lies to the left stays; any other changes places
/// with the last one of the stretch, which gets shorter by that one.
pub open spec fn sifted(tris: Seq<Tri>, idx: Seq<usize>, s: Split, i: int, j: int) -> (
    Seq<usize>,
    int,
)
    decreases j - i,
{
    if i >= j {
        (idx, i)
    } else if lies_left(tris, idx, i, s) {
        sifted(tris, idx, s, i + 1, j)
    } else {
        sifted(tris, swapped(idx, i, j - 1), s, i, j - 1)
    }
}

/// The leaf over the stretch `first .. first + count` of the index array.
pub open spec fn leaf_over(tris: Seq<Tri>, idx: Seq<usize>, first: int, count: int) -> BvhNode {
    let b = bounds_of(tris, ids(idx, first, count));
    BvhNode {
        aabb_min: b.bmin,
        aabb_max: b.bmax,
        left_first: first as u32,
        tri_count: count as u32,
    }
}

/// The nodes and the index array after the leaf `i`, which stands for the
/// stretch `first .. first + count`, has been split as far as the heuristic
/// asks.
///
/// If the stretch has no candidate plane, or its best plane does not cost
/// less than the leaf as it is, nothing changes. Otherwise the stretch is
/// sifted by the plane; the two sides become two new leaves at the end of
/// the nodes, the left one first; node `i` becomes their parent; and first
/// the left leaf, then the right one is split in the same way. Were a side
/// left without a triangle, the node would stay a leaf over the sifted
/// stretch; `lemma_cheaper_plane_has_two_sides` shows that none is.
pub open spec fn grown(
    nodes: Seq<BvhNode>,
    idx: Seq<usize>,
    tris: Seq<Tri>,
    i: int,
    first: int,
    count: int,
) -> (Seq<BvhNode>, Seq<usize>)
    decreases count,
{
    match best_split(tris, ids(idx, first, count)) {
        None => (nodes, idx),
        Some(s) => {
            if s.cost >= count * nodes[i].aabb().spec_area() {
                (nodes, idx)
            } else {
                let sift = sifted(tris, idx, s, first, first + count);
                let k = sift.1 - first;
                if k <= 0 || k >= count {
                    (nodes, sift.0)
                } else {
                    let l = nodes.len() as int;
                    let parent = BvhNode {
                        aabb_min: nodes[i].aabb_min,
                        aabb_max: nodes[i].aabb_max,
                        left_first: l as u32,
                        tri_count: 0,
                    };
                    let nodes1 = nodes.update(i, parent).push(
                        leaf_over(tris, sift.0, first, k),
                    ).push(leaf_over(tris, sift.0, first + k, count - k));
                    let left = grown(nodes1, sift.0, tris, l, first, k);
                    grown(left.0, left.1, tris, l + 1, first + k, count - k)
                }
            }
        },
    }
}

/// The nodes and the index array of the hierarchy over `tris`: the root
/// over all triangles in their given order, split as far as the heuristic asks.
pub open spec fn hierarchy_of(tris: Seq<Tri>) -> (Seq<BvhNode>, Seq<usize>) {
    let idx = Seq::new(tris.len(), |k: int| k as usize);
    let root = leaf_over(tris, idx, 0, tris.len() as int);
    if tris.len() == 0 {
        (Seq::empty().push(root), idx)
    } else {
        grown(Seq::empty().push(root), idx, tris, 0, 0, tris.len() as int)
    }
}

/// Positions `f .. f + k` hold the left side of the plane and positions
/// `f + k .. f + c` its right side.
pub open spec fn parted(tris: Seq<Tri>, idx: Seq<usize>, f: int, c: int, k: int, s: Split) -> bool {
    &&& forall|p: int|
        f <= p < f + k ==> 0 <= bin_of(
            key(tris, (#[trigger] idx[p]) as int, s.axis as int),
            s.lo as int,
            s.ext as int,
        ) < s.plane
    &&& forall|p: int|
        f + k <= p < f + c ==> s.plane <= bin_of(
            key(tris, (#[trigger] idx[p]) as int, s.axis as int),
            s.lo as int,
            s.ext as int,
        ) < 8
}

proof fn lemma_parted_sides(tris: Seq<Tri>, idx: Seq<usize>, f: int, c: int, k: int, s: Split)
    requires
        0 <= k <= c,
        parted(tris, idx, f, c, k, s),
    ensures
        ids(idx, f, k) == s.left(tris, ids(idx, f, c)),
        ids(idx, f + k, c - k) == s.right(tris, ids(idx, f, c)),
{
    let m = ids(idx, f, c);
    let l = ids(idx, f, k);
    let r = ids(idx, f + k, c - k);
    assert forall|t: int| l.contains(t) <==> s.left(tris, m).contains(t) by {
        if l.contains(t) {
            let p = choose|p: int| f <= p < f + k && (#[trigger] idx[p]) as int == t;
            assert(f <= p < f + c && idx[p] as int == t);
        }
        if s.left(tris, m).contains(t) {
            let p = choose|p: int| f <= p < f + c && (#[trigger] idx[p]) as int == t;
            assert(f <= p < f + k && idx[p] as int == t);
        }
    }
    assert forall|t: int| r.contains(t) <==> s.right(tris, m).contains(t) by {
        if r.contains(t) {
            let p = choose|p: int| f + k <= p < f + k + (c - k) && (#[trigger] idx[p]) as int == t;
            assert(f <= p < f + c && idx[p] as int == t);
        }
        if s.right(tris, m).contains(t) {
            let p = choose|p: int| f <= p < f + c && (#[trigger] idx[p]) as int == t;
            assert(f + k <= p < f + k + (c - k) && idx[p] as int == t);
        }
    }
    assert(l =~= s.left(tris, m));
    assert(r =~= s.right(tris, m));
}

/// Below every node lie the triangles of its stretch of the index array.
proof fn lemma_members_span(bvh: Bvh, spans: Seq<(int, int)>, j: int)
    requires
        building(bvh.nodes@, bvh.tris@, bvh.tri_indices@, spans),
        0 <= j < bvh.nodes@.len(),
    ensures
        bvh.members(j) == ids(bvh.tri_indices@, spans[j].0, spans[j].1),
    decreases bvh.nodes@.len() - j,
{
    let nd = bvh.nodes@[j];
    assert(built(bvh.nodes@, bvh.tris@, bvh.tri_indices@, spans, j));
    if nd.tri_count > 0 {
    } else if nd.left_first > 0 {
        let l = nd.left_first as int;
        lemma_members_span(bvh, spans, l);
        lemma_members_span(bvh, spans, l + 1);
        lemma_ids_split(bvh.tri_indices@, spans[j].0, spans[l].1, spans[j].1);
    } else {
        lemma_ids_finite(bvh.tri_indices@, spans[j].0, spans[j].1);
    }
}

/// Once every leaf is settled, the hierarchy is well formed.
proof fn lemma_finish(bvh: Bvh, spans: Seq<(int, int)>)
    requires
        building(bvh.nodes@, bvh.tris@, bvh.tri_indices@, spans),
        spans[0] == (0int, bvh.tris@.len() as int),
        forall|j: int|
            0 <= j < bvh.nodes@.len() ==> #[trigger] settled(
                bvh.nodes@,
                bvh.tris@,
                bvh.tri_indices@,
                spans,
                j,
            ),
    ensures
        bvh.wf(),
{
    let n = bvh.tris@.len() as int;
    let idx = bvh.tri_indices@;
    assert forall|i: int| 0 <= i < bvh.nodes@.len() implies #[trigger] bvh.node_shaped(i) by {
        assert(built(bvh.nodes@, bvh.tris@, idx, spans, i));
    }
    assert forall|i: int| 0 <= i < bvh.nodes@.len() implies #[trigger] bvh.node_wf(i) by {
        assert(built(bvh.nodes@, bvh.tris@, idx, spans, i));
        assert(settled(bvh.nodes@, bvh.tris@, idx, spans, i));
        lemma_members_span(bvh, spans, i);
        lemma_ids_len(idx, spans[i].0, spans[i].1);
        let nd = bvh.nodes@[i];
        if nd.tri_count == 0 && nd.left_first > 0 {
            let l = nd.left_first as int;
            lemma_members_span(bvh, spans, l);
            lemma_members_span(bvh, spans, l + 1);
        }
        if i > 0 {
            let p = choose|p: int|
                0 <= p < i && (#[trigger] bvh.nodes@[p]).tri_count == 0
                    && bvh.nodes@[p].left_first > 0 && (bvh.nodes@[p].left_first == i
                    || bvh.nodes@[p].left_first + 1 == i);
            assert(bvh.has_parent(i));
        }
    }
    lemma_members_span(bvh, spans, 0);
    assert(bvh.members(0) =~= all_of(bvh.tris@.len())) by {
        assert forall|t: int| ids(idx, 0, n).contains(t) implies 0 <= t < n by {
            let k = choose|k: int| 0 <= k < 0 + n && (#[trigger] idx[k]) as int == t;
        }
    }
}

impl Bvh {
    /// Sets the box of the leaf `node_idx` to the least box around its triangles.
    fn update_node_bounds(&mut self, node_idx: usize)
        requires
            node_idx < old(self).nodes.len(),
            old(self).nodes@[node_idx as int].left_first + old(self).nodes@[node_idx as int].tri_count
                <= old(self).tri_indices.len(),
            forall|k: int|
                0 <= k < old(self).tri_indices.len() ==> (#[trigger] old(self).tri_indices@[k])
                    < old(self).tris.len(),
        ensures
            final(self).tris@ == old(self).tris@,
            final(self).tri_indices@ == old(self).tri_indices@,
            final(self).nodes@.len() == old(self).nodes@.len(),
            forall|j: int|
                0 <= j < old(self).nodes@.len() && j != node_idx ==> #[trigger] final(self).nodes@[j]
                    == old(self).nodes@[j],
            final(self).nodes@[node_idx as int].left_first == old(self).nodes@[node_idx as int].left_first,
            final(self).nodes@[node_idx as int].tri_count == old(self).nodes@[node_idx as int].tri_count,
            is_bounds(
                final(self).nodes@[node_idx as int].aabb(),
                old(self).tris@,
                ids(
                    old(self).tri_indices@,
                    old(self).nodes@[node_idx as int].left_first as int,
                    old(self).nodes@[node_idx as int].tri_count as int,
                ),
            ),
    {
        let first: usize = self.nodes[node_idx].left_first as usize;
        let count: usize = self.nodes[node_idx].tri_count as usize;
        let mut b: Aabb = Aabb::default();
        let mut i: usize = 0;
        proof {
            lemma_ids_finite(self.tri_indices@, first as int, 0);
            lemma_bounds_empty(self.tris@);
        }
        while i < count
            invariant
                i <= count,
                first + count <= self.tri_indices.len(),
                forall|k: int|
                    0 <= k < self.tri_indices.len() ==> (#[trigger] self.tri_indices@[k])
                        < self.tris.len(),
                is_bounds(b, self.tris@, ids(self.tri_indices@, first as int, i as int)),
            decreases count - i,
        {
            let t: usize = self.tri_indices[first + i];
            let tri: Tri = self.tris[t];
            proof {
                lemma_ids_step(self.tri_indices@, first as int, i as int);
                lemma_bounds_insert(
                    b,
                    self.tris@,
                    ids(self.tri_indices@, first as int, i as int),
                    t as int,
                );
            }
            b.grow(tri.vertex0);
            b.grow(tri.vertex1);
            b.grow(tri.vertex2);
            i += 1;
        }
        self.nodes[node_idx].aabb_min = b.bmin;
        self.nodes[node_idx].aabb_max = b.bmax;
    }

    /// Rearranges the stretch `first .. first + count` of the index array so
    /// that the triangles to the left of the plane come first, and returns
    /// how many there are.
    fn partition(&mut self, first: usize, count: usize, s: &Split) -> (k: usize)
        requires
            first + count <= old(self).tri_indices.len(),
            forall|k: int|
                0 <= k < old(self).tri_indices.len() ==> (#[trigger] old(self).tri_indices@[k])
                    < old(self).tris.len(),
            distinct(old(self).tri_indices@),
            s.axis < 3,
            0 < s.ext <= 0xffff_ffff,
            forall|t: int| #[trigger]
                ids(old(self).tri_indices@, first as int, count as int).contains(t) ==> s.lo
                    <= key(old(self).tris@, t, s.axis as int),
        ensures
            final(self).tris@ == old(self).tris@,
            final(self).nodes@ == old(self).nodes@,
            shuffled(old(self).tri_indices@, final(self).tri_indices@, first as int, count as int),
            distinct(final(self).tri_indices@),
            k <= count,
            parted(final(self).tris@, final(self).tri_indices@, first as int, count as int, k as int, *s),
            (final(self).tri_indices@, first + k) == sifted(
                old(self).tris@,
                old(self).tri_indices@,
                *s,
                first as int,
                first + count,
            ),
    {
        let mut i: usize = first;
        let mut j: usize = first + count;
        while i < j
            invariant
                first <= i <= j <= first + count,
                sifted(self.tris@, self.tri_indices@, *s, i as int, j as int) == sifted(
                    old(self).tris@,
                    old(self).tri_indices@,
                    *s,
                    first as int,
                    first + count,
                ),
                first + count <= self.tri_indices.len(),
                self.tris@ == old(self).tris@,
                self.nodes@ == old(self).nodes@,
                shuffled(old(self).tri_indices@, self.tri_indices@, first as int, count as int),
                distinct(self.tri_indices@),
                forall|k: int|
                    0 <= k < self.tri_indices.len() ==> (#[trigger] self.tri_indices@[k])
                        < self.tris.len(),
                s.axis < 3,
                0 < s.ext <= 0xffff_ffff,
                forall|t: int| #[trigger]
                    ids(old(self).tri_indices@, first as int, count as int).contains(t) ==> s.lo
                        <= key(old(self).tris@, t, s.axis as int),
                forall|p: int|
                    first <= p < i ==> 0 <= bin_of(
                        key(self.tris@, (#[trigger] self.tri_indices@[p]) as int, s.axis as int),
                        s.lo as int,
                        s.ext as int,
                    ) < s.plane,
                forall|p: int|
                    j <= p < first + count ==> s.plane <= bin_of(
                        key(self.tris@, (#[trigger] self.tri_indices@[p]) as int, s.axis as int),
                        s.lo as int,
                        s.ext as int,
                    ) < 8,
            decreases j - i,
        {
            let t: usize = self.tri_indices[i];
            proof {
                assert(first <= i < first + count && self.tri_indices@[i as int] as int == t);
                assert(ids(self.tri_indices@, first as int, count as int).contains(t as int));
            }
            let d: i64 = self.tris[t].centroid.get(s.axis) as i64 - s.lo as i64;
            let q: i64 = (d * 8) / s.ext;
            assert(q >= 0) by (nonlinear_arith)
                requires
                    d >= 0,
                    s.ext > 0,
                    q == (d * 8) / (s.ext as int),
            ;
            let b: usize = if q >= 7 {
                7
            } else {
                q as usize
            };
            if b < s.plane {
                i += 1;
            } else {
                let ghost before = self.tri_indices@;
                let u: usize = self.tri_indices[j - 1];
                self.tri_indices[i] = u;
                self.tri_indices[j - 1] = t;
                j -= 1;
                proof {
                    assert(self.tri_indices@ =~= swapped(before, i as int, j as int));
                    lemma_swap(before, i as int, j as int, first as int, count as int);
                    lemma_shuffled_trans(
                        old(self).tri_indices@,
                        before,
                        self.tri_indices@,
                        first as int,
                        count as int,
                    );
                    assert forall|k: int| 0 <= k < self.tri_indices.len() implies (
                    #[trigger] self.tri_indices@[k]) < self.tris.len() by {
                        if k == i {
                            assert(self.tri_indices@[k] == before[j as int]);
                        } else if k == j {
                            assert(self.tri_indices@[k] == before[i as int]);
                        } else {
                            assert(self.tri_indices@[k] == before[k]);
                        }
                    }
                    assert forall|p: int| first <= p < i implies 0 <= bin_of(
                        key(self.tris@, (#[trigger] self.tri_indices@[p]) as int, s.axis as int),
                        s.lo as int,
                        s.ext as int,
                    ) < s.plane by {
                        assert(self.tri_indices@[p] == before[p]);
                    }
                    assert forall|p: int| j <= p < first + count implies s.plane <= bin_of(
                        key(self.tris@, (#[trigger] self.tri_indices@[p]) as int, s.axis as int),
                        s.lo as int,
                        s.ext as int,
                    ) < 8 by {
                        if p != j {
                            assert(self.tri_indices@[p] == before[p]);
                        }
                    }
                }
            }
        }
        i - first
    }
}


/// The state right after the leaf `i` has been split into the new leaves `l`
/// and `l + 1` is in order.
proof fn lemma_split_state(
    nodes0: Seq<BvhNode>,
    nodes1: Seq<BvhNode>,
    tris: Seq<Tri>,
    idx0: Seq<usize>,
    idx1: Seq<usize>,
    spans0: Seq<(int, int)>,
    i: int,
    k: int,
    s: Split,
)
    requires
        building(nodes0, tris, idx0, spans0),
        0 <= i < nodes0.len(),
        nodes0[i].tri_count > 0,
        nodes1.len() == nodes0.len() + 2,
        forall|q: int| 0 <= q < nodes0.len() && q != i ==> #[trigger] nodes1[q] == nodes0[q],
        forall|q: int|
            0 <= q < nodes0.len() && q != i ==> around_or_apart(
                #[trigger] spans0[q],
                spans0[i].0,
                spans0[i].1,
            ),
        shuffled(idx0, idx1, spans0[i].0, spans0[i].1),
        distinct(idx1),
        0 < k < spans0[i].1,
        is_best_split(tris, ids(idx0, spans0[i].0, spans0[i].1), Some(s)),
        s.cost < nodes0[i].spec_cost(),
        parted(tris, idx1, spans0[i].0, spans0[i].1, k, s),
        nodes1[i].aabb() == nodes0[i].aabb(),
        nodes1[i].tri_count == 0,
        nodes1[i].left_first == nodes0.len(),
        nodes1[nodes0.len() as int].tri_count == k,
        nodes1[nodes0.len() as int].left_first == spans0[i].0,
        nodes1[nodes0.len() as int + 1].tri_count == spans0[i].1 - k,
        nodes1[nodes0.len() as int + 1].left_first == spans0[i].0 + k,
        is_bounds(nodes1[nodes0.len() as int].aabb(), tris, ids(idx1, spans0[i].0, k)),
        is_bounds(
            nodes1[nodes0.len() as int + 1].aabb(),
            tris,
            ids(idx1, spans0[i].0 + k, spans0[i].1 - k),
        ),
    ensures
        building(
            nodes1,
            tris,
            idx1,
            spans0.push((spans0[i].0, k)).push((spans0[i].0 + k, spans0[i].1 - k)),
        ),
        forall|j: int|
            0 <= j < nodes0.len() && j != i && settled(nodes0, tris, idx0, spans0, j)
                ==> #[trigger] settled(
                nodes1,
                tris,
                idx1,
                spans0.push((spans0[i].0, k)).push((spans0[i].0 + k, spans0[i].1 - k)),
                j,
            ),
{
    let f = spans0[i].0;
    let c = spans0[i].1;
    let l = nodes0.len() as int;
    let spans1 = spans0.push((f, k)).push((f + k, c - k));
    assert(built(nodes0, tris, idx0, spans0, i));
    lemma_frame_all(nodes0, nodes1, tris, idx0, idx1, spans0, spans1, i);
    lemma_parted_sides(tris, idx1, f, c, k, s);
    lemma_ids_len(idx1, f, k);
    lemma_ids_len(idx1, f + k, c - k);
    if i > 0 {
        let p = choose|p: int|
            0 <= p < i && (#[trigger] nodes0[p]).tri_count == 0 && nodes0[p].left_first > 0 && (
            nodes0[p].left_first == i || nodes0[p].left_first + 1 == i);
        assert(nodes1[p] == nodes0[p]);
    }
    assert(is_best_split(tris, ids(idx1, f, c), Some(s)));
    assert(split_by(
        tris,
        ids(idx1, f, c),
        ids(idx1, f, k),
        ids(idx1, f + k, c - k),
        c * nodes1[i].aabb().spec_area(),
    ));
    assert(built(nodes1, tris, idx1, spans1, i));
    assert(nodes1[i].tri_count == 0 && nodes1[i].left_first == l);
    assert(built(nodes1, tris, idx1, spans1, l));
    assert(nodes1[i].left_first + 1 == l + 1);
    assert(built(nodes1, tris, idx1, spans1, l + 1));
    assert forall|j: int| 0 <= j < nodes1.len() implies #[trigger] built(
        nodes1,
        tris,
        idx1,
        spans1,
        j,
    ) by {}
}

impl Bvh {
    /// Splits the leaf `node_idx` by the best plane if that costs less than
    /// leaving it whole, and goes on with the two halves.
    fn subdivide_node(&mut self, node_idx: usize, Ghost(spans): Ghost<Seq<(int, int)>>) -> (out:
        Ghost<Seq<(int, int)>>)
        requires
            building(old(self).nodes@, old(self).tris@, old(self).tri_indices@, spans),
            node_idx < old(self).nodes.len(),
            old(self).nodes@[node_idx as int].tri_count > 0,
            forall|j: int|
                0 <= j < old(self).nodes@.len() && j != node_idx ==> around_or_apart(
                    #[trigger] spans[j],
                    spans[node_idx as int].0,
                    spans[node_idx as int].1,
                ),
            old(self).nodes@.len() + 2 * (spans[node_idx as int].1 - 1) <= u32::MAX,
        ensures
            building(final(self).nodes@, final(self).tris@, final(self).tri_indices@, out@),
            final(self).tris@ == old(self).tris@,
            (final(self).nodes@, final(self).tri_indices@) == grown(
                old(self).nodes@,
                old(self).tri_indices@,
                old(self).tris@,
                node_idx as int,
                spans[node_idx as int].0,
                spans[node_idx as int].1,
            ),
            final(self).nodes@.len() >= old(self).nodes@.len(),
            final(self).nodes@.len() <= old(self).nodes@.len() + 2 * (spans[node_idx as int].1
                - 1),
            forall|j: int| 0 <= j < old(self).nodes@.len() ==> #[trigger] out@[j] == spans[j],
            forall|j: int|
                old(self).nodes@.len() <= j < final(self).nodes@.len() ==> within(
                    #[trigger] out@[j],
                    spans[node_idx as int].0,
                    spans[node_idx as int].1,
                ),
            forall|j: int|
                0 <= j < old(self).nodes@.len() && j != node_idx ==> #[trigger] final(self).nodes@[j] == old(self).nodes@[j],
            final(self).nodes@[node_idx as int].aabb() == old(self).nodes@[node_idx as int].aabb(),
            final(self).nodes@[node_idx as int].tri_count > 0 ==> final(self).nodes@.len() == old(self).nodes@.len(),
            shuffled(
                old(self).tri_indices@,
                final(self).tri_indices@,
                spans[node_idx as int].0,
                spans[node_idx as int].1,
            ),
            forall|j: int|
                (j == node_idx || old(self).nodes@.len() <= j < final(self).nodes@.len())
                    ==> #[trigger] settled(
                    final(self).nodes@,
                    final(self).tris@,
                    final(self).tri_indices@,
                    out@,
                    j,
                ),
            forall|j: int|
                0 <= j < old(self).nodes@.len() && j != node_idx && settled(
                    old(self).nodes@,
                    old(self).tris@,
                    old(self).tri_indices@,
                    spans,
                    j,
                ) ==> #[trigger] settled(
                    final(self).nodes@,
                    final(self).tris@,
                    final(self).tri_indices@,
                    out@,
                    j,
                ),
        decreases old(self).nodes@[node_idx as int].tri_count,
    {
        let ghost nodes0 = self.nodes@;
        let ghost idx0 = self.tri_indices@;
        let ghost tris = self.tris@;
        let ghost f = spans[node_idx as int].0;
        let ghost c = spans[node_idx as int].1;
        let ghost m = ids(idx0, f, c);
        let node: BvhNode = self.nodes[node_idx];
        proof {
            assert(built(nodes0, tris, idx0, spans, node_idx as int));
            assert(shuffled(idx0, idx0, f, c));
        }
        let best: Option<Split> = self.find_best_split_plane(&node);
        let nosplit_cost: i128 = node.calculate_cost();
        let s: Split = match best {
            None => {
                proof {
                    assert(stays_leaf(best, node.spec_cost()));
                }
                return Ghost(spans);
            },
            Some(s) => s,
        };
        if s.cost >= nosplit_cost {
            proof {
                assert(stays_leaf(best, node.spec_cost()));
            }
            return Ghost(spans);
        }
        let first: usize = node.left_first as usize;
        let count: usize = node.tri_count as usize;
        let k: usize = self.partition(first, count, &s);
        let ghost idx1 = self.tri_indices@;
        proof {
            lemma_frame_all(nodes0, nodes0, tris, idx0, idx1, spans, spans, node_idx as int);
            lemma_parted_sides(tris, idx1, f, c, k as int, s);
            lemma_ids_len(idx0, f, c);
            lemma_ids_len(idx1, f, k as int);
            lemma_ids_len(idx1, f + k, c - k);
            lemma_cheaper_plane_has_two_sides(tris, m, s, node.aabb());
        }
        // The node stays a leaf if one side is empty. A plane that costs less
        // than the leaf never leaves one empty, so this does not happen.
        if k == 0 || k == count {
            return Ghost(spans);
        }
        // Create the two children and hand them the two sides.

        let left_idx: usize = self.nodes.len();
        self.nodes.push(
            BvhNode {
                aabb_min: Vec3::splat(0),
                aabb_max: Vec3::splat(0),
                left_first: first as u32,
                tri_count: k as u32,
            },
        );
        self.nodes.push(
            BvhNode {
                aabb_min: Vec3::splat(0),
                aabb_max: Vec3::splat(0),
                left_first: (first + k) as u32,
                tri_count: (count - k) as u32,
            },
        );
        self.nodes[node_idx].left_first = left_idx as u32;
        self.nodes[node_idx].tri_count = 0;
        self.update_node_bounds(left_idx);
        self.update_node_bounds(left_idx + 1);
        let ghost nodes1 = self.nodes@;
        let ghost spans1 = spans.push((f, k as int)).push((f + k, c - k));
        proof {
            lemma_bounds_unique(nodes1[left_idx as int].aabb(), tris, ids(idx1, f, k as int));
            lemma_bounds_unique(nodes1[left_idx + 1].aabb(), tris, ids(idx1, f + k, c - k));
            let parent = BvhNode {
                aabb_min: nodes0[node_idx as int].aabb_min,
                aabb_max: nodes0[node_idx as int].aabb_max,
                left_first: left_idx as u32,
                tri_count: 0,
            };
            assert(nodes1 =~= nodes0.update(node_idx as int, parent).push(
                leaf_over(tris, idx1, f, k as int),
            ).push(leaf_over(tris, idx1, f + k, c - k)));
            lemma_split_state(nodes0, nodes1, tris, idx0, idx1, spans, node_idx as int, k as int, s);
            assert forall|j: int| 0 <= j < nodes1.len() && j != left_idx implies around_or_apart(
                #[trigger] spans1[j],
                f,
                k as int,
            ) by {
                if j < nodes0.len() && j != node_idx {
                    assert(around_or_apart(spans[j], f, c));
                }
            }
        }
        let Ghost(spans2) = self.subdivide_node(left_idx, Ghost(spans1));
        let ghost nodes2 = self.nodes@;
        let ghost idx2 = self.tri_indices@;
        proof {
            assert forall|j: int|
                0 <= j < nodes2.len() && j != left_idx + 1 implies around_or_apart(
                #[trigger] spans2[j],
                f + k,
                c - k,
            ) by {
                if j < nodes1.len() {
                    assert(spans2[j] == spans1[j]);
                    if j < nodes0.len() && j != node_idx {
                        assert(around_or_apart(spans[j], f, c));
                    }
                } else {
                    assert(within(spans2[j], f, k as int));
                }
            }
            assert(spans2[left_idx + 1] == spans1[left_idx + 1]);
            assert(nodes2[left_idx + 1] == nodes1[left_idx + 1]);
        }
        let Ghost(spans3) = self.subdivide_node(left_idx + 1, Ghost(spans2));
        proof {
            let nodes3 = self.nodes@;
            let idx3 = self.tri_indices@;
            lemma_shuffled_widen(idx1, idx2, f, k as int, f, c);
            lemma_shuffled_widen(idx2, idx3, f + k, c - k, f, c);
            lemma_shuffled_trans(idx0, idx1, idx2, f, c);
            lemma_shuffled_trans(idx0, idx2, idx3, f, c);
            assert forall|j: int| 0 <= j < nodes0.len() implies #[trigger] spans3[j] == spans[j] by {
                assert(spans3[j] == spans2[j]);
                assert(spans2[j] == spans1[j]);
            }
            assert forall|j: int| nodes0.len() <= j < nodes3.len() implies within(
                #[trigger] spans3[j],
                f,
                c,
            ) by {
                if j < nodes2.len() {
                    assert(spans3[j] == spans2[j]);
                    if j < nodes1.len() {
                        assert(spans2[j] == spans1[j]);
                    } else {
                        assert(within(spans2[j], f, k as int));
                    }
                } else {
                    assert(within(spans3[j], f + k, c - k));
                }
            }
            assert forall|j: int| 0 <= j < nodes0.len() && j != node_idx implies #[trigger] nodes3[j]
                == nodes0[j] by {
                assert(nodes3[j] == nodes2[j]);
                assert(nodes2[j] == nodes1[j]);
                assert(nodes1[j] == nodes0[j]);
            }
            assert(nodes3[node_idx as int] == nodes2[node_idx as int]);
            assert(nodes2[node_idx as int] == nodes1[node_idx as int]);
            assert forall|j: int|
                (j == node_idx || nodes0.len() <= j < nodes3.len()) implies #[trigger] settled(
                nodes3,
                tris,
                idx3,
                spans3,
                j,
            ) by {
                if j < nodes2.len() && j != left_idx + 1 {
                    assert(settled(nodes2, tris, idx2, spans2, j));
                }
            }
            assert forall|j: int|
                0 <= j < nodes0.len() && j != node_idx && settled(
                    nodes0,
                    tris,
                    idx0,
                    spans,
                    j,
                ) implies #[trigger] settled(nodes3, tris, idx3, spans3, j) by {
                assert(settled(nodes1, tris, idx1, spans1, j));
                assert(settled(nodes2, tris, idx2, spans2, j));
            }
        }
        Ghost(spans3)
    }

    /// Builds the hierarchy over `triangles`.
    ///
    /// The root's box holds every corner of every triangle. A node is split
    /// only by the cheapest of its candidate planes, and only where that plane
    /// costs strictly less than the node unsplit.
    pub fn new(triangles: Vec<Tri>) -> (bvh: Bvh)
        requires
            triangles.len() <= MAX_TRIS,
        ensures
            bvh.wf(),
            bvh.tris@ == triangles@,
            (bvh.nodes@, bvh.tri_indices@) == hierarchy_of(triangles@),
            forall|t: int|
                0 <= t < triangles@.len() ==> holds_tri(
                    bvh.nodes@[0].aabb(),
                    #[trigger] triangles@[t],
                ),
            flat(triangles@, all_of(triangles@.len()), 0) && flat(
                triangles@,
                all_of(triangles@.len()),
                1,
            ) && flat(triangles@, all_of(triangles@.len()), 2) ==> bvh.nodes@.len() == 1,
    {
        let count: usize = triangles.len();
        let mut indices: Vec<usize> = Vec::with_capacity(count);
        let mut i: usize = 0;
        while i < count
            invariant
                i <= count,
                indices@.len() == i,
                forall|k: int| 0 <= k < i ==> indices@[k] == k,
            decreases count - i,
        {
            indices.push(i);
            i += 1;
        }
        let mut nodes: Vec<BvhNode> = Vec::with_capacity(64);
        nodes.push(
            BvhNode {
                aabb_min: Vec3::splat(0),
                aabb_max: Vec3::splat(0),
                left_first: 0,
                tri_count: count as u32,
            },
        );
        let mut bvh = Bvh { nodes, tris: triangles, tri_indices: indices };
        bvh.update_node_bounds(0);
        let ghost spans = seq![(0int, count as int)];
        proof {
            assert(bvh.tri_indices@ =~= Seq::new(bvh.tris@.len(), |k: int| k as usize));
            lemma_bounds_unique(
                bvh.nodes@[0].aabb(),
                bvh.tris@,
                ids(bvh.tri_indices@, 0, count as int),
            );
            assert(bvh.nodes@ =~= Seq::empty().push(
                leaf_over(bvh.tris@, bvh.tri_indices@, 0, count as int),
            ));
            lemma_identity_permutation(bvh.tri_indices@, count as int);
            assert(built(bvh.nodes@, bvh.tris@, bvh.tri_indices@, spans, 0));
        }
        if count > 0 {
            let Ghost(spans1) = bvh.subdivide_node(0, Ghost(spans));
            proof {
                assert(spans1[0] == spans[0]);
                lemma_finish(bvh, spans1);
            }
        } else {
            proof {
                lemma_finish(bvh, spans);
            }
        }
        proof {
            lemma_root_holds_every_triangle(bvh);
            if flat(bvh.tris@, all_of(bvh.tris@.len()), 0) && flat(
                bvh.tris@,
                all_of(bvh.tris@.len()),
                1,
            ) && flat(bvh.tris@, all_of(bvh.tris@.len()), 2) {
                lemma_degenerate_single_leaf(bvh);
            }
        }
        bvh
    }
}

} // verus!

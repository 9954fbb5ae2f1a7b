//! The binned surface-area heuristic that chooses where a node is split.

use vstd::prelude::*;
use vstd::set_lib::{lemma_len_subset, lemma_set_disjoint_lens};
use crate::aabb::{Aabb, lemma_area_bounded};
use crate::bounds::{
    bounds_of, is_bounds, lemma_bounds_empty, lemma_bounds_insert, lemma_bounds_union,
    lemma_bounds_unique,
};
use crate::bvh::{Bvh, BvhNode};
use crate::members::{distinct, ids, lemma_ids_finite, lemma_ids_len, lemma_ids_step};
use crate::tri::Tri;
use crate::algebra::lemma_mul_bounded;

verus! {

/// A candidate plane. Along each axis the centroids of a node are sorted
/// into eight bins of equal width; plane `plane` of axis `axis` is the one
/// between bin `plane - 1` and bin `plane`. It cuts the axis at `lo + ext *
/// plane / 8`, where `lo` is the least centroid coordinate of the node on
/// that axis and `ext` the distance to the greatest. Triangles whose bin
/// number is below `plane` lie to the left of it.
#[derive(Clone, Copy, Debug)]
pub struct Split {
    pub axis: usize,
    pub lo: i32,
    pub ext: i64,
    pub plane: usize,
    pub cost: i128,
}

/// Coordinate `a` of the centroid of triangle `t`.
pub open spec fn key(tris: Seq<Tri>, t: int, a: int) -> int {
    tris[t].centroid.axis(a)
}

/// The bin of a centroid coordinate `k` on an axis whose centroids start at
/// `lo` and stretch over `ext`.
pub open spec fn bin_of(k: int, lo: int, ext: int) -> int {
    let b = ((k - lo) * 8) / ext;
    if b >= 7 {
        7
    } else {
        b
    }
}

/// The members of `m` whose bin on axis `a` is in `blo .. bhi`.
pub open spec fn bin_range(
    tris: Seq<Tri>,
    m: Set<int>,
    a: int,
    lo: int,
    ext: int,
    blo: int,
    bhi: int,
) -> Set<int> {
    Set::new(|t: int| m.contains(t) && blo <= bin_of(key(tris, t, a), lo, ext) < bhi)
}

/// What one side of a plane costs: how many triangles it holds times the area
/// of their least box.
pub open spec fn side_cost(tris: Seq<Tri>, s: Set<int>) -> int {
    s.len() * bounds_of(tris, s).spec_area()
}

/// The cost of cutting `m` on axis `a` before bin `p`.
pub open spec fn plane_cost(tris: Seq<Tri>, m: Set<int>, a: int, lo: int, ext: int, p: int) -> int {
    side_cost(tris, bin_range(tris, m, a, lo, ext, 0, p)) + side_cost(
        tris,
        bin_range(tris, m, a, lo, ext, p, 8),
    )
}

/// `v` is the least centroid coordinate on axis `a` among `m`.
pub open spec fn is_lowest(tris: Seq<Tri>, m: Set<int>, a: int, v: int) -> bool {
    &&& forall|t: int| #[trigger] m.contains(t) ==> v <= key(tris, t, a)
    &&& exists|t: int| #[trigger] m.contains(t) && key(tris, t, a) == v
}

/// `v` is the greatest centroid coordinate on axis `a` among `m`.
pub open spec fn is_highest(tris: Seq<Tri>, m: Set<int>, a: int, v: int) -> bool {
    &&& forall|t: int| #[trigger] m.contains(t) ==> v >= key(tris, t, a)
    &&& exists|t: int| #[trigger] m.contains(t) && key(tris, t, a) == v
}

/// All centroids of `m` have the same coordinate on axis `a`.
pub open spec fn flat(tris: Seq<Tri>, m: Set<int>, a: int) -> bool {
    forall|t: int, u: int| #[trigger]
        m.contains(t) && #[trigger] m.contains(u) ==> key(tris, t, a) == key(tris, u, a)
}

impl Split {
    /// The split names one of the candidate planes of `m` and carries its cost.
    pub open spec fn fits(self, tris: Seq<Tri>, m: Set<int>) -> bool {
        &&& self.axis < 3
        &&& 1 <= self.plane <= 7
        &&& self.ext > 0
        &&& is_lowest(tris, m, self.axis as int, self.lo as int)
        &&& is_highest(tris, m, self.axis as int, self.lo + self.ext)
        &&& self.cost == plane_cost(
            tris,
            m,
            self.axis as int,
            self.lo as int,
            self.ext as int,
            self.plane as int,
        )
    }

    /// The members of `m` to the left of the plane.
    pub open spec fn left(self, tris: Seq<Tri>, m: Set<int>) -> Set<int> {
        bin_range(tris, m, self.axis as int, self.lo as int, self.ext as int, 0, self.plane as int)
    }

    /// The members of `m` to the right of the plane.
    pub open spec fn right(self, tris: Seq<Tri>, m: Set<int>) -> Set<int> {
        bin_range(tris, m, self.axis as int, self.lo as int, self.ext as int, self.plane as int, 8)
    }

    /// The plane is tried before `o` in the search: lower axis first, then lower plane.
    pub open spec fn before(self, o: Split) -> bool {
        self.axis < o.axis || (self.axis == o.axis && self.plane < o.plane)
    }

    /// The plane is among those tried up to plane `p` of axis `a`.
    pub open spec fn seen(self, a: int, p: int) -> bool {
        self.axis < a || (self.axis == a && self.plane <= p)
    }
}

/// `r` is the cheapest of the candidate planes tried up to plane `p` of axis
/// `a`, the first such one in search order, or `None` if there was none.
pub open spec fn is_best_among(tris: Seq<Tri>, m: Set<int>, r: Option<Split>, a: int, p: int) -> bool {
    match r {
        None => forall|c: Split| #[trigger] c.fits(tris, m) ==> !c.seen(a, p),
        Some(s) => {
            &&& s.fits(tris, m)
            &&& s.seen(a, p)
            &&& forall|c: Split| #[trigger]
                c.fits(tris, m) && c.seen(a, p) ==> s.cost <= c.cost && (c.before(s) ==> s.cost
                    < c.cost)
        },
    }
}

/// `r` is the cheapest candidate plane of `m`, the first such one in search
/// order (lowest axis, then lowest plane), or `None` if `m` has no candidate
/// plane at all.
pub open spec fn is_best_split(tris: Seq<Tri>, m: Set<int>, r: Option<Split>) -> bool {
    match r {
        None => forall|c: Split| !#[trigger] c.fits(tris, m),
        Some(s) => {
            &&& s.fits(tris, m)
            &&& forall|c: Split| #[trigger]
                c.fits(tris, m) ==> s.cost <= c.cost && (c.before(s) ==> s.cost < c.cost)
        },
    }
}

/// The best candidate plane of `m`.
pub open spec fn best_split(tris: Seq<Tri>, m: Set<int>) -> Option<Split> {
    choose|r: Option<Split>| is_best_split(tris, m, r)
}

/// There is only one best candidate plane.
pub proof fn lemma_best_split_unique(tris: Seq<Tri>, m: Set<int>, r: Option<Split>)
    requires
        is_best_split(tris, m, r),
    ensures
        best_split(tris, m) == r,
{
    let q = best_split(tris, m);
    assert(is_best_split(tris, m, q));
    match (q, r) {
        (Some(s1), Some(s2)) => {
            assert(s1.fits(tris, m) && s2.fits(tris, m));
            assert(s1.cost == s2.cost);
            assert(s1.axis == s2.axis && s1.plane == s2.plane);
            lemma_lowest_unique(tris, m, s1.axis as int, s1.lo as int, s2.lo as int);
            lemma_highest_unique(tris, m, s1.axis as int, s1.lo + s1.ext, s2.lo + s2.ext);
        },
        (Some(s1), None) => {
            assert(s1.fits(tris, m));
        },
        (None, Some(s2)) => {
            assert(s2.fits(tris, m));
        },
        (None, None) => {},
    }
}

/// An axis on which all centroids coincide offers no candidate plane.
pub proof fn lemma_flat_offers_nothing(tris: Seq<Tri>, m: Set<int>, c: Split)
    requires
        c.axis < 3,
        flat(tris, m, c.axis as int),
    ensures
        !c.fits(tris, m),
{
    if c.fits(tris, m) {
        let t = choose|t: int| #[trigger] m.contains(t) && key(tris, t, c.axis as int) == c.lo;
        let u = choose|u: int| #[trigger]
            m.contains(u) && key(tris, u, c.axis as int) == c.lo + c.ext;
        assert(key(tris, t, c.axis as int) == key(tris, u, c.axis as int));
    }
}

/// Where the centroids coincide on every axis there is nothing to choose.
pub proof fn lemma_degenerate_has_no_split(tris: Seq<Tri>, m: Set<int>, r: Option<Split>)
    requires
        flat(tris, m, 0),
        flat(tris, m, 1),
        flat(tris, m, 2),
        is_best_split(tris, m, r),
    ensures
        r is None,
{
    if let Some(s) = r {
        lemma_flat_offers_nothing(tris, m, s);
    }
}

proof fn lemma_lowest_unique(tris: Seq<Tri>, m: Set<int>, a: int, v: int, w: int)
    requires
        is_lowest(tris, m, a, v),
        is_lowest(tris, m, a, w),
    ensures
        v == w,
{
    let t = choose|t: int| #[trigger] m.contains(t) && key(tris, t, a) == v;
    let u = choose|u: int| #[trigger] m.contains(u) && key(tris, u, a) == w;
    assert(m.contains(t) && m.contains(u));
}

proof fn lemma_highest_unique(tris: Seq<Tri>, m: Set<int>, a: int, v: int, w: int)
    requires
        is_highest(tris, m, a, v),
        is_highest(tris, m, a, w),
    ensures
        v == w,
{
    let t = choose|t: int| #[trigger] m.contains(t) && key(tris, t, a) == v;
    let u = choose|u: int| #[trigger] m.contains(u) && key(tris, u, a) == w;
    assert(m.contains(t) && m.contains(u));
}

proof fn lemma_bin_range_insert(
    tris: Seq<Tri>,
    m: Set<int>,
    t: int,
    a: int,
    lo: int,
    ext: int,
    blo: int,
    bhi: int,
)
    ensures
        blo <= bin_of(key(tris, t, a), lo, ext) < bhi ==> bin_range(
            tris,
            m.insert(t),
            a,
            lo,
            ext,
            blo,
            bhi,
        ) == bin_range(tris, m, a, lo, ext, blo, bhi).insert(t),
        !(blo <= bin_of(key(tris, t, a), lo, ext) < bhi) ==> bin_range(
            tris,
            m.insert(t),
            a,
            lo,
            ext,
            blo,
            bhi,
        ) == bin_range(tris, m, a, lo, ext, blo, bhi),
{
    let x = bin_range(tris, m.insert(t), a, lo, ext, blo, bhi);
    let y = bin_range(tris, m, a, lo, ext, blo, bhi);
    if blo <= bin_of(key(tris, t, a), lo, ext) < bhi {
        assert(x =~= y.insert(t));
    } else {
        assert(x =~= y);
    }
}

proof fn lemma_bin_range_finite(
    tris: Seq<Tri>,
    m: Set<int>,
    a: int,
    lo: int,
    ext: int,
    blo: int,
    bhi: int,
)
    requires
        m.finite(),
    ensures
        bin_range(tris, m, a, lo, ext, blo, bhi).finite(),
        bin_range(tris, m, a, lo, ext, blo, bhi).len() <= m.len(),
        bin_range(tris, m, a, lo, ext, blo, bhi).subset_of(m),
{
    lemma_len_subset(bin_range(tris, m, a, lo, ext, blo, bhi), m);
}

proof fn lemma_bin_range_join(
    tris: Seq<Tri>,
    m: Set<int>,
    a: int,
    lo: int,
    ext: int,
    blo: int,
    mid: int,
    bhi: int,
)
    requires
        m.finite(),
        blo <= mid <= bhi,
    ensures
        bin_range(tris, m, a, lo, ext, blo, bhi) == bin_range(tris, m, a, lo, ext, blo, mid).union(
            bin_range(tris, m, a, lo, ext, mid, bhi),
        ),
        bin_range(tris, m, a, lo, ext, blo, bhi).len() == bin_range(
            tris,
            m,
            a,
            lo,
            ext,
            blo,
            mid,
        ).len() + bin_range(tris, m, a, lo, ext, mid, bhi).len(),
{
    let x = bin_range(tris, m, a, lo, ext, blo, mid);
    let y = bin_range(tris, m, a, lo, ext, mid, bhi);
    lemma_bin_range_finite(tris, m, a, lo, ext, blo, mid);
    lemma_bin_range_finite(tris, m, a, lo, ext, mid, bhi);
    assert(bin_range(tris, m, a, lo, ext, blo, bhi) =~= x.union(y));
    assert(x.disjoint(y));
    lemma_set_disjoint_lens(x, y);
}

proof fn lemma_bin_range_none(tris: Seq<Tri>, m: Set<int>, a: int, lo: int, ext: int, b: int)
    ensures
        bin_range(tris, m, a, lo, ext, b, b) == Set::<int>::empty(),
{
    assert(bin_range(tris, m, a, lo, ext, b, b) =~= Set::<int>::empty());
}

/// The bin number of a member is in `0 .. 8`, so the bins `0 .. 8` hold all of `m`.
proof fn lemma_bin_range_all(tris: Seq<Tri>, m: Set<int>, a: int, lo: int, ext: int)
    requires
        ext > 0,
        forall|t: int| #[trigger] m.contains(t) ==> lo <= key(tris, t, a),
    ensures
        bin_range(tris, m, a, lo, ext, 0, 8) == m,
{
    assert forall|t: int| m.contains(t) implies 0 <= bin_of(key(tris, t, a), lo, ext) < 8 by {
        let k = key(tris, t, a);
        assert(((k - lo) * 8) / ext >= 0) by (nonlinear_arith)
            requires
                k - lo >= 0,
                ext > 0,
        ;
    }
    assert(bin_range(tris, m, a, lo, ext, 0, 8) =~= m);
}


/// A member lies to the left of plane `p`, that is in a bin below `p`,
/// exactly if its centroid lies below the plane's position `lo + ext * p / 8`.
pub proof fn lemma_left_of_plane(k: int, lo: int, ext: int, p: int)
    requires
        ext > 0,
        1 <= p <= 7,
    ensures
        bin_of(k, lo, ext) < p <==> (k - lo) * 8 < ext * p,
{
    let q = ((k - lo) * 8) / ext;
    assert(q * ext <= (k - lo) * 8 < (q + 1) * ext) by (nonlinear_arith)
        requires
            ext > 0,
            q == ((k - lo) * 8) / ext,
    ;
    if q < p {
        assert((q + 1) * ext <= p * ext) by (nonlinear_arith)
            requires
                q + 1 <= p,
                ext > 0,
        ;
    } else {
        assert(p * ext <= q * ext) by (nonlinear_arith)
            requires
                p <= q,
                ext > 0,
        ;
    }
    assert(p * ext == ext * p) by (nonlinear_arith);
}

/// A plane that costs less than leaving the triangles together has
/// triangles on both of its sides.
pub proof fn lemma_cheaper_plane_has_two_sides(tris: Seq<Tri>, m: Set<int>, s: Split, b: Aabb)
    requires
        m.finite(),
        s.fits(tris, m),
        is_bounds(b, tris, m),
        s.cost < m.len() * b.spec_area(),
    ensures
        s.left(tris, m).len() > 0,
        s.right(tris, m).len() > 0,
{
    let a = s.axis as int;
    let lo = s.lo as int;
    let ext = s.ext as int;
    let p = s.plane as int;
    let l = s.left(tris, m);
    let r = s.right(tris, m);
    lemma_bin_range_all(tris, m, a, lo, ext);
    lemma_bin_range_join(tris, m, a, lo, ext, 0, p, 8);
    lemma_bin_range_finite(tris, m, a, lo, ext, 0, p);
    lemma_bin_range_finite(tris, m, a, lo, ext, p, 8);
    lemma_bounds_empty(tris);
    lemma_bounds_unique(Aabb::spec_empty(), tris, Set::<int>::empty());
    lemma_bounds_unique(b, tris, m);
    if l.len() == 0 {
        assert(l =~= Set::<int>::empty());
        assert(r =~= m);
        assert(0 * bounds_of(tris, l).spec_area() == 0) by (nonlinear_arith);
    }
    if r.len() == 0 {
        assert(r =~= Set::<int>::empty());
        assert(l =~= m);
        assert(0 * bounds_of(tris, r).spec_area() == 0) by (nonlinear_arith);
    }
}

proof fn lemma_lowest_insert(tris: Seq<Tri>, m: Set<int>, a: int, v: int, t: int, first: bool)
    requires
        first ==> m == Set::<int>::empty(),
        !first ==> is_lowest(tris, m, a, v),
    ensures
        is_lowest(
            tris,
            m.insert(t),
            a,
            if first || key(tris, t, a) < v {
                key(tris, t, a)
            } else {
                v
            },
        ),
{
    let m2 = m.insert(t);
    assert(m2.contains(t));
    if !first && key(tris, t, a) >= v {
        let w = choose|w: int| #[trigger] m.contains(w) && key(tris, w, a) == v;
        assert(m2.contains(w));
    }
}

proof fn lemma_highest_insert(tris: Seq<Tri>, m: Set<int>, a: int, v: int, t: int, first: bool)
    requires
        first ==> m == Set::<int>::empty(),
        !first ==> is_highest(tris, m, a, v),
    ensures
        is_highest(
            tris,
            m.insert(t),
            a,
            if first || key(tris, t, a) > v {
                key(tris, t, a)
            } else {
                v
            },
        ),
{
    let m2 = m.insert(t);
    assert(m2.contains(t));
    if !first && key(tris, t, a) <= v {
        let w = choose|w: int| #[trigger] m.contains(w) && key(tris, w, a) == v;
        assert(m2.contains(w));
    }
}

proof fn lemma_best_start(tris: Seq<Tri>, m: Set<int>)
    ensures
        is_best_among(tris, m, None, 0, 0),
{
}

proof fn lemma_best_next_axis(tris: Seq<Tri>, m: Set<int>, best: Option<Split>, a: int)
    requires
        is_best_among(tris, m, best, a, 7),
    ensures
        is_best_among(tris, m, best, a + 1, 0),
{
    assert forall|c: Split| #[trigger] c.fits(tris, m) implies (c.seen(a, 7) <==> c.seen(a + 1, 0)) by {}
}

proof fn lemma_best_skip_axis(
    tris: Seq<Tri>,
    m: Set<int>,
    best: Option<Split>,
    a: int,
    lo: int,
    hi: int,
)
    requires
        is_best_among(tris, m, best, a, 0),
        m == Set::<int>::empty() || (is_lowest(tris, m, a, lo) && is_highest(tris, m, a, hi)),
        lo >= hi,
    ensures
        is_best_among(tris, m, best, a, 7),
{
    assert forall|c: Split| #[trigger] c.fits(tris, m) implies (c.seen(a, 0) <==> c.seen(a, 7)) by {
        if c.axis == a {
            let t = choose|t: int| #[trigger] m.contains(t) && key(tris, t, a) == c.lo;
            assert(m.contains(t));
            lemma_lowest_unique(tris, m, a, lo, c.lo as int);
            lemma_highest_unique(tris, m, a, hi, c.lo + c.ext);
        }
    }
}

proof fn lemma_best_step(
    tris: Seq<Tri>,
    m: Set<int>,
    best: Option<Split>,
    cand: Split,
    p: int,
)
    requires
        cand.fits(tris, m),
        cand.plane == p,
        is_best_among(tris, m, best, cand.axis as int, p - 1),
    ensures
        is_best_among(
            tris,
            m,
            if best is None || cand.cost < best->0.cost {
                Some(cand)
            } else {
                best
            },
            cand.axis as int,
            p,
        ),
{
    let a = cand.axis as int;
    let next = if best is None || cand.cost < best->0.cost {
        Some(cand)
    } else {
        best
    };
    let s = next->0;
    assert forall|c: Split| #[trigger] c.fits(tris, m) && c.seen(a, p) implies s.cost <= c.cost && (
    c.before(s) ==> s.cost < c.cost) by {
        if c.axis == a && c.plane == p {
            lemma_lowest_unique(tris, m, a, cand.lo as int, c.lo as int);
            lemma_highest_unique(tris, m, a, cand.lo + cand.ext, c.lo + c.ext);
            assert(c.cost == cand.cost);
        } else {
            assert(c.seen(a, p - 1));
        }
    }
}

proof fn lemma_best_done(tris: Seq<Tri>, m: Set<int>, best: Option<Split>)
    requires
        is_best_among(tris, m, best, 3, 0),
    ensures
        is_best_split(tris, m, best),
{
    assert forall|c: Split| #[trigger] c.fits(tris, m) implies c.seen(3, 0) by {}
}

impl Bvh {
    /// Least and greatest centroid coordinate on axis `a` among the triangles
    /// listed at `first .. first + count`.
    fn centroid_range(&self, first: usize, count: usize, a: usize) -> (r: (i32, i32))
        requires
            a < 3,
            first + count <= self.tri_indices.len(),
            forall|k: int|
                0 <= k < self.tri_indices.len() ==> (#[trigger] self.tri_indices@[k])
                    < self.tris.len(),
        ensures
            count == 0 ==> r.0 == i32::MAX && r.1 == i32::MIN,
            count > 0 ==> is_lowest(
                self.tris@,
                ids(self.tri_indices@, first as int, count as int),
                a as int,
                r.0 as int,
            ) && is_highest(
                self.tris@,
                ids(self.tri_indices@, first as int, count as int),
                a as int,
                r.1 as int,
            ),
    {
        let mut lo: i32 = i32::MAX;
        let mut hi: i32 = i32::MIN;
        let mut i: usize = 0;
        while i < count
            invariant
                i <= count,
                a < 3,
                first + count <= self.tri_indices.len(),
                forall|k: int|
                    0 <= k < self.tri_indices.len() ==> (#[trigger] self.tri_indices@[k])
                        < self.tris.len(),
                i == 0 ==> lo == i32::MAX && hi == i32::MIN,
                i > 0 ==> is_lowest(
                    self.tris@,
                    ids(self.tri_indices@, first as int, i as int),
                    a as int,
                    lo as int,
                ) && is_highest(
                    self.tris@,
                    ids(self.tri_indices@, first as int, i as int),
                    a as int,
                    hi as int,
                ),
            decreases count - i,
        {
            let t: usize = self.tri_indices[first + i];
            let c: i32 = self.tris[t].centroid.get(a);
            proof {
                let m = ids(self.tri_indices@, first as int, i as int);
                lemma_ids_step(self.tri_indices@, first as int, i as int);
                lemma_ids_finite(self.tri_indices@, first as int, i as int);
                lemma_lowest_insert(self.tris@, m, a as int, lo as int, t as int, i == 0);
                lemma_highest_insert(self.tris@, m, a as int, hi as int, t as int, i == 0);
            }
            if c < lo {
                lo = c;
            }
            if c > hi {
                hi = c;
            }
            i += 1;
        }
        (lo, hi)
    }

    /// Sorts the triangles listed at `first .. first + count` into bins along
    /// axis `a`: how many fall into each bin, and the least box around them.
    fn fill_bins(&self, first: usize, count: usize, a: usize, lo: i32, ext: i64) -> (r: (
        [u32; 8],
        [Aabb; 8],
    ))
        requires
            a < 3,
            0 < ext <= 0xffff_ffff,
            count <= u32::MAX,
            first + count <= self.tri_indices.len(),
            forall|k: int|
                0 <= k < self.tri_indices.len() ==> (#[trigger] self.tri_indices@[k])
                    < self.tris.len(),
            distinct(self.tri_indices@),
            forall|t: int| #[trigger]
                ids(self.tri_indices@, first as int, count as int).contains(t) ==> lo <= key(
                    self.tris@,
                    t,
                    a as int,
                ),
        ensures
            forall|b: int|
                0 <= b < 8 ==> {
                    &&& r.0@[b] == (#[trigger] bin_range(
                        self.tris@,
                        ids(self.tri_indices@, first as int, count as int),
                        a as int,
                        lo as int,
                        ext as int,
                        b,
                        b + 1,
                    )).len()
                    &&& is_bounds(
                        r.1@[b],
                        self.tris@,
                        bin_range(
                            self.tris@,
                            ids(self.tri_indices@, first as int, count as int),
                            a as int,
                            lo as int,
                            ext as int,
                            b,
                            b + 1,
                        ),
                    )
                },
    {
        let mut cnt: [u32; 8] = [0u32; 8];
        let mut boxes: [Aabb; 8] = [Aabb::default();8];
        let mut i: usize = 0;
        proof {
            lemma_ids_finite(self.tri_indices@, first as int, 0);
            assert forall|b: int| 0 <= b < 8 implies {
                &&& cnt@[b] == (#[trigger] bin_range(
                    self.tris@,
                    ids(self.tri_indices@, first as int, 0),
                    a as int,
                    lo as int,
                    ext as int,
                    b,
                    b + 1,
                )).len()
                &&& is_bounds(
                    boxes@[b],
                    self.tris@,
                    bin_range(
                        self.tris@,
                        ids(self.tri_indices@, first as int, 0),
                        a as int,
                        lo as int,
                        ext as int,
                        b,
                        b + 1,
                    ),
                )
            } by {
                let e = bin_range(
                    self.tris@,
                    ids(self.tri_indices@, first as int, 0),
                    a as int,
                    lo as int,
                    ext as int,
                    b,
                    b + 1,
                );
                assert(e =~= Set::<int>::empty());
                lemma_bounds_empty(self.tris@);
            }
        }
        while i < count
            invariant
                i <= count,
                a < 3,
                0 < ext <= 0xffff_ffff,
                count <= u32::MAX,
                first + count <= self.tri_indices.len(),
                forall|k: int|
                    0 <= k < self.tri_indices.len() ==> (#[trigger] self.tri_indices@[k])
                        < self.tris.len(),
                distinct(self.tri_indices@),
                forall|t: int| #[trigger]
                    ids(self.tri_indices@, first as int, count as int).contains(t) ==> lo <= key(
                        self.tris@,
                        t,
                        a as int,
                    ),
                forall|b: int| 0 <= b < 8 ==> #[trigger] cnt@[b] <= i,
                forall|b: int|
                    0 <= b < 8 ==> {
                        &&& cnt@[b] == (#[trigger] bin_range(
                            self.tris@,
                            ids(self.tri_indices@, first as int, i as int),
                            a as int,
                            lo as int,
                            ext as int,
                            b,
                            b + 1,
                        )).len()
                        &&& is_bounds(
                            boxes@[b],
                            self.tris@,
                            bin_range(
                                self.tris@,
                                ids(self.tri_indices@, first as int, i as int),
                                a as int,
                                lo as int,
                                ext as int,
                                b,
                                b + 1,
                            ),
                        )
                    },
            decreases count - i,
        {
            let t: usize = self.tri_indices[first + i];
            let tri: Tri = self.tris[t];
            proof {
                assert(first <= first + i < first + count && self.tri_indices@[first + i] as int
                    == t as int);
                assert(ids(self.tri_indices@, first as int, count as int).contains(t as int));
            }
            let k: i64 = tri.centroid.get(a) as i64 - lo as i64;
            let q: i64 = (k * 8) / ext;
            assert(q >= 0) by (nonlinear_arith)
                requires
                    k >= 0,
                    ext > 0,
                    q == (k * 8) / (ext as int),
            ;
            let b: usize = if q >= 7 {
                7
            } else {
                q as usize
            };
            assert(b as int == bin_of(key(self.tris@, t as int, a as int), lo as int, ext as int));
            let ghost old_cnt = cnt@;
            let ghost old_boxes = boxes@;
            cnt[b] = cnt[b] + 1;
            let mut bx: Aabb = boxes[b];
            bx.grow(tri.vertex0);
            bx.grow(tri.vertex1);
            bx.grow(tri.vertex2);
            boxes[b] = bx;
            proof {
                let m = ids(self.tri_indices@, first as int, i as int);
                let m2 = ids(self.tri_indices@, first as int, i + 1);
                lemma_ids_step(self.tri_indices@, first as int, i as int);
                lemma_ids_finite(self.tri_indices@, first as int, i as int);
                if m.contains(t as int) {
                    let j = choose|j: int|
                        first <= j < first + i && (#[trigger] self.tri_indices@[j]) as int == t;
                    assert(self.tri_indices@[j] == self.tri_indices@[first + i]);
                    assert(false);
                }
                assert forall|b2: int| 0 <= b2 < 8 implies {
                    &&& cnt@[b2] == (#[trigger] bin_range(
                        self.tris@,
                        m2,
                        a as int,
                        lo as int,
                        ext as int,
                        b2,
                        b2 + 1,
                    )).len()
                    &&& is_bounds(
                        boxes@[b2],
                        self.tris@,
                        bin_range(self.tris@, m2, a as int, lo as int, ext as int, b2, b2 + 1),
                    )
                } by {
                    let old_set = bin_range(
                        self.tris@,
                        m,
                        a as int,
                        lo as int,
                        ext as int,
                        b2,
                        b2 + 1,
                    );
                    assert(old_cnt[b2] == old_set.len());
                    lemma_bin_range_insert(
                        self.tris@,
                        m,
                        t as int,
                        a as int,
                        lo as int,
                        ext as int,
                        b2,
                        b2 + 1,
                    );
                    lemma_bin_range_finite(
                        self.tris@,
                        m,
                        a as int,
                        lo as int,
                        ext as int,
                        b2,
                        b2 + 1,
                    );
                    if b2 == b {
                        assert(!old_set.contains(t as int));
                        lemma_bounds_insert(old_boxes[b2], self.tris@, old_set, t as int);
                    }
                }
            }
            i += 1;
        }
        (cnt, boxes)
    }
}


/// The bins are those of `m` on axis `a`: each count and each box is that of its bin.
pub open spec fn bins_of(
    cnt: Seq<u32>,
    boxes: Seq<Aabb>,
    tris: Seq<Tri>,
    m: Set<int>,
    a: int,
    lo: int,
    ext: int,
) -> bool {
    &&& cnt.len() == 8
    &&& boxes.len() == 8
    &&& forall|b: int|
        0 <= b < 8 ==> {
            &&& cnt[b] == (#[trigger] bin_range(tris, m, a, lo, ext, b, b + 1)).len()
            &&& is_bounds(boxes[b], tris, bin_range(tris, m, a, lo, ext, b, b + 1))
        }
}

/// The cost of each of the seven planes between the eight bins: entry `i` is
/// the cost of cutting before bin `i + 1`.
fn sweep_costs(
    cnt: &[u32; 8],
    boxes: &[Aabb; 8],
    Ghost(tris): Ghost<Seq<Tri>>,
    Ghost(m): Ghost<Set<int>>,
    Ghost(a): Ghost<int>,
    Ghost(lo): Ghost<int>,
    Ghost(ext): Ghost<int>,
) -> (costs: [i128; 7])
    requires
        m.finite(),
        m.len() <= u32::MAX,
        bins_of(cnt@, boxes@, tris, m, a, lo, ext),
    ensures
        forall|p: int| 1 <= p <= 7 ==> costs@[p - 1] == #[trigger] plane_cost(tris, m, a, lo, ext, p),
{
    let mut left_area: [i128; 7] = [0i128;7];
    let mut right_area: [i128; 7] = [0i128;7];
    let mut left_count: [u32; 7] = [0u32;7];
    let mut right_count: [u32; 7] = [0u32;7];
    let mut left_box: Aabb = Aabb::default();
    let mut right_box: Aabb = Aabb::default();
    let mut left_sum: u32 = 0;
    let mut right_sum: u32 = 0;
    let mut i: usize = 0;
    proof {
        lemma_bin_range_none(tris, m, a, lo, ext, 0);
        lemma_bin_range_none(tris, m, a, lo, ext, 8);
        lemma_bounds_empty(tris);
    }
    while i < 7
        invariant
            i <= 7,
            m.finite(),
            m.len() <= u32::MAX,
            bins_of(cnt@, boxes@, tris, m, a, lo, ext),
            left_sum == bin_range(tris, m, a, lo, ext, 0, i as int).len(),
            is_bounds(left_box, tris, bin_range(tris, m, a, lo, ext, 0, i as int)),
            right_sum == bin_range(tris, m, a, lo, ext, 8 - i, 8).len(),
            is_bounds(right_box, tris, bin_range(tris, m, a, lo, ext, 8 - i, 8)),
            forall|j: int|
                0 <= j < i ==> {
                    &&& left_count@[j] == (#[trigger] bin_range(tris, m, a, lo, ext, 0, j + 1)).len()
                    &&& left_area@[j] == bounds_of(
                        tris,
                        bin_range(tris, m, a, lo, ext, 0, j + 1),
                    ).spec_area()
                },
            forall|j: int|
                7 - i <= j < 7 ==> {
                    &&& right_count@[j] == (#[trigger] bin_range(
                        tris,
                        m,
                        a,
                        lo,
                        ext,
                        j + 1,
                        8,
                    )).len()
                    &&& right_area@[j] == bounds_of(
                        tris,
                        bin_range(tris, m, a, lo, ext, j + 1, 8),
                    ).spec_area()
                },
        decreases 7 - i,
    {
        proof {
            lemma_bin_range_join(tris, m, a, lo, ext, 0, i as int, i + 1);
            lemma_bin_range_join(tris, m, a, lo, ext, 7 - i, 8 - i, 8);
            lemma_bin_range_finite(tris, m, a, lo, ext, 0, i + 1);
            lemma_bin_range_finite(tris, m, a, lo, ext, 7 - i, 8);
            assert(cnt@[i as int] == bin_range(tris, m, a, lo, ext, i as int, i + 1).len());
            assert(cnt@[7 - i] == bin_range(tris, m, a, lo, ext, 7 - i, 7 - i + 1).len());
            lemma_bounds_union(
                left_box,
                bin_range(tris, m, a, lo, ext, 0, i as int),
                boxes@[i as int],
                bin_range(tris, m, a, lo, ext, i as int, i + 1),
                tris,
            );
            lemma_bounds_union(
                right_box,
                bin_range(tris, m, a, lo, ext, 8 - i, 8),
                boxes@[7 - i],
                bin_range(tris, m, a, lo, ext, 7 - i, 7 - i + 1),
                tris,
            );
            assert(bin_range(tris, m, a, lo, ext, 8 - i, 8).union(
                bin_range(tris, m, a, lo, ext, 7 - i, 7 - i + 1),
            ) =~= bin_range(tris, m, a, lo, ext, 7 - i, 8));
        }
        left_sum = left_sum + cnt[i];
        left_count[i] = left_sum;
        left_box.grow_aabb(&boxes[i]);
        left_area[i] = left_box.area();
        right_sum = right_sum + cnt[7 - i];
        right_count[6 - i] = right_sum;
        right_box.grow_aabb(&boxes[7 - i]);
        right_area[6 - i] = right_box.area();
        proof {
            lemma_bounds_unique(left_box, tris, bin_range(tris, m, a, lo, ext, 0, i + 1));
            lemma_bounds_unique(right_box, tris, bin_range(tris, m, a, lo, ext, 7 - i, 8));
        }
        i += 1;
    }
    let mut costs: [i128; 7] = [0i128;7];
    let mut j: usize = 0;
    while j < 7
        invariant
            j <= 7,
            forall|k: int|
                0 <= k < 7 ==> {
                    &&& left_count@[k] == (#[trigger] bin_range(tris, m, a, lo, ext, 0, k + 1)).len()
                    &&& left_area@[k] == bounds_of(
                        tris,
                        bin_range(tris, m, a, lo, ext, 0, k + 1),
                    ).spec_area()
                },
            forall|k: int|
                0 <= k < 7 ==> {
                    &&& right_count@[k] == (#[trigger] bin_range(
                        tris,
                        m,
                        a,
                        lo,
                        ext,
                        k + 1,
                        8,
                    )).len()
                    &&& right_area@[k] == bounds_of(
                        tris,
                        bin_range(tris, m, a, lo, ext, k + 1, 8),
                    ).spec_area()
                },
            forall|p: int|
                1 <= p <= j ==> costs@[p - 1] == #[trigger] plane_cost(tris, m, a, lo, ext, p),
        decreases 7 - j,
    {
        proof {
            let l = bin_range(tris, m, a, lo, ext, 0, j + 1);
            let r = bin_range(tris, m, a, lo, ext, j + 1, 8);
            assert(left_count@[j as int] == l.len());
            assert(right_count@[j as int] == r.len());
            lemma_area_bounded(bounds_of(tris, l));
            lemma_area_bounded(bounds_of(tris, r));
            lemma_mul_bounded(
                left_count@[j as int] as int,
                left_area@[j as int] as int,
                0x1_0000_0000,
                0x3_0000_0000_0000_0000,
            );
            lemma_mul_bounded(
                right_count@[j as int] as int,
                right_area@[j as int] as int,
                0x1_0000_0000,
                0x3_0000_0000_0000_0000,
            );
        }
        let c: i128 = left_count[j] as i128 * left_area[j] + right_count[j] as i128 * right_area[j];
        costs[j] = c;
        j += 1;
    }
    costs
}

impl Bvh {
    /// Searches the three axes and the seven planes of each for the cheapest
    /// way to cut the triangles of the leaf `node` in two.
    pub fn find_best_split_plane(&self, node: &BvhNode) -> (r: Option<Split>)
        requires
            node.left_first + node.tri_count <= self.tri_indices.len(),
            forall|k: int|
                0 <= k < self.tri_indices.len() ==> (#[trigger] self.tri_indices@[k])
                    < self.tris.len(),
            distinct(self.tri_indices@),
        ensures
            is_best_split(
                self.tris@,
                ids(self.tri_indices@, node.left_first as int, node.tri_count as int),
                r,
            ),
            r == best_split(
                self.tris@,
                ids(self.tri_indices@, node.left_first as int, node.tri_count as int),
            ),
    {
        let first: usize = node.left_first as usize;
        let count: usize = node.tri_count as usize;
        let ghost m = ids(self.tri_indices@, first as int, count as int);
        let mut best: Option<Split> = None;
        let mut a: usize = 0;
        proof {
            lemma_best_start(self.tris@, m);
            lemma_ids_len(self.tri_indices@, first as int, count as int);
        }
        while a < 3
            invariant
                a <= 3,
                first + count <= self.tri_indices.len(),
                count <= u32::MAX,
                forall|k: int|
                    0 <= k < self.tri_indices.len() ==> (#[trigger] self.tri_indices@[k])
                        < self.tris.len(),
                distinct(self.tri_indices@),
                m == ids(self.tri_indices@, first as int, count as int),
                m.finite(),
                m.len() == count,
                is_best_among(self.tris@, m, best, a as int, 0),
            decreases 3 - a,
        {
            let (lo, hi) = self.centroid_range(first, count, a);
            if lo < hi {
                let ext: i64 = hi as i64 - lo as i64;
                let (cnt, boxes) = self.fill_bins(first, count, a, lo, ext);
                let costs: [i128; 7] = sweep_costs(
                    &cnt,
                    &boxes,
                    Ghost(self.tris@),
                    Ghost(m),
                    Ghost(a as int),
                    Ghost(lo as int),
                    Ghost(ext as int),
                );
                let mut i: usize = 0;
                while i < 7
                    invariant
                        i <= 7,
                        a < 3,
                        ext > 0,
                        ext == hi - lo,
                        is_lowest(self.tris@, m, a as int, lo as int),
                        is_highest(self.tris@, m, a as int, hi as int),
                        forall|p: int|
                            1 <= p <= 7 ==> costs@[p - 1] == #[trigger] plane_cost(
                                self.tris@,
                                m,
                                a as int,
                                lo as int,
                                ext as int,
                                p,
                            ),
                        is_best_among(self.tris@, m, best, a as int, i as int),
                    decreases 7 - i,
                {
                    let cand = Split { axis: a, lo, ext, plane: i + 1, cost: costs[i] };
                    proof {
                        assert(costs@[i + 1 - 1] == plane_cost(
                            self.tris@,
                            m,
                            a as int,
                            lo as int,
                            ext as int,
                            i + 1,
                        ));
                        lemma_best_step(self.tris@, m, best, cand, i + 1);
                    }
                    let better: bool = match best {
                        None => true,
                        Some(s) => cand.cost < s.cost,
                    };
                    if better {
                        best = Some(cand);
                    }
                    i += 1;
                }
            } else {
                proof {
                    if count == 0 {
                        lemma_ids_finite(self.tri_indices@, first as int, count as int);
                    }
                    lemma_best_skip_axis(self.tris@, m, best, a as int, lo as int, hi as int);
                }
            }
            proof {
                lemma_best_next_axis(self.tris@, m, best, a as int);
            }
            a += 1;
        }
        proof {
            lemma_best_done(self.tris@, m, best);
            lemma_best_split_unique(self.tris@, m, best);
        }
        best
    }
}

} // verus!

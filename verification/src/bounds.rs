//! The least box around a set of triangles.

use vstd::prelude::*;
use crate::aabb::Aabb;
use crate::tri::Tri;

verus! {

/// The box `b` grown to hold the three corners of `t`.
pub open spec fn grown_by(b: Aabb, t: Tri) -> Aabb {
    b.spec_grow(t.vertex0).spec_grow(t.vertex1).spec_grow(t.vertex2)
}

/// The three corners of `t` lie in `b`.
pub open spec fn holds_tri(b: Aabb, t: Tri) -> bool {
    b.contains(t.vertex0) && b.contains(t.vertex1) && b.contains(t.vertex2)
}

/// Every triangle numbered in `m` lies in `b`.
pub open spec fn covers(b: Aabb, tris: Seq<Tri>, m: Set<int>) -> bool {
    forall|t: int| #[trigger] m.contains(t) ==> holds_tri(b, tris[t])
}

/// `b` is the least box that holds every triangle numbered in `m`.
pub open spec fn is_bounds(b: Aabb, tris: Seq<Tri>, m: Set<int>) -> bool {
    &&& covers(b, tris, m)
    &&& forall|o: Aabb| #[trigger] covers(o, tris, m) ==> o.encloses(b)
}

/// The least box that holds every triangle numbered in `m`.
pub open spec fn bounds_of(tris: Seq<Tri>, m: Set<int>) -> Aabb {
    choose|b: Aabb| is_bounds(b, tris, m)
}

/// There is only one least box.
pub proof fn lemma_bounds_unique(b: Aabb, tris: Seq<Tri>, m: Set<int>)
    requires
        is_bounds(b, tris, m),
    ensures
        bounds_of(tris, m) == b,
{
    let c = bounds_of(tris, m);
    assert(is_bounds(c, tris, m));
    assert(covers(b, tris, m));
    assert(covers(c, tris, m));
    assert(b.encloses(c) && c.encloses(b));
}

pub proof fn lemma_bounds_empty(tris: Seq<Tri>)
    ensures
        is_bounds(Aabb::spec_empty(), tris, Set::<int>::empty()),
{
}

pub proof fn lemma_bounds_insert(b: Aabb, tris: Seq<Tri>, m: Set<int>, t: int)
    requires
        is_bounds(b, tris, m),
    ensures
        is_bounds(grown_by(b, tris[t]), tris, m.insert(t)),
{
    let g = grown_by(b, tris[t]);
    let m2 = m.insert(t);
    assert(covers(g, tris, m2)) by {
        assert forall|u: int| #[trigger] m2.contains(u) implies holds_tri(g, tris[u]) by {
            if u != t {
                assert(m.contains(u));
            }
        }
    }
    assert forall|o: Aabb| #[trigger] covers(o, tris, m2) implies o.encloses(g) by {
        assert(covers(o, tris, m)) by {
            assert forall|u: int| #[trigger] m.contains(u) implies holds_tri(o, tris[u]) by {
                assert(m2.contains(u));
            }
        }
        assert(m2.contains(t));
    }
}

pub proof fn lemma_bounds_union(b1: Aabb, m1: Set<int>, b2: Aabb, m2: Set<int>, tris: Seq<Tri>)
    requires
        is_bounds(b1, tris, m1),
        is_bounds(b2, tris, m2),
    ensures
        is_bounds(b1.spec_union(b2), tris, m1.union(m2)),
{
    let g = b1.spec_union(b2);
    let m = m1.union(m2);
    assert(covers(g, tris, m)) by {
        assert forall|u: int| #[trigger] m.contains(u) implies holds_tri(g, tris[u]) by {
            if m1.contains(u) {
            } else {
                assert(m2.contains(u));
            }
        }
    }
    assert forall|o: Aabb| #[trigger] covers(o, tris, m) implies o.encloses(g) by {
        assert(covers(o, tris, m1)) by {
            assert forall|u: int| #[trigger] m1.contains(u) implies holds_tri(o, tris[u]) by {
                assert(m.contains(u));
            }
        }
        assert(covers(o, tris, m2)) by {
            assert forall|u: int| #[trigger] m2.contains(u) implies holds_tri(o, tris[u]) by {
                assert(m.contains(u));
            }
        }
    }
}

} // verus!

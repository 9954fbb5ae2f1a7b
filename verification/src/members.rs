//! Sets of triangle numbers held in a stretch of an index array.

use vstd::prelude::*;

verus! {

/// The values found at positions `f .. f + c` of `idx`.
pub open spec fn ids(idx: Seq<usize>, f: int, c: int) -> Set<int> {
    Set::new(|t: int| exists|k: int| f <= k < f + c && (#[trigger] idx[k]) as int == t)
}

/// No value occurs at two positions of `idx`.
pub open spec fn distinct(idx: Seq<usize>) -> bool {
    forall|i: int, j: int| 0 <= i < idx.len() && 0 <= j < idx.len() && i != j ==> idx[i] != idx[j]
}

/// `idx` lists each of `0 .. n` exactly once.
pub open spec fn is_permutation(idx: Seq<usize>, n: int) -> bool {
    &&& idx.len() == n
    &&& forall|k: int| 0 <= k < n ==> 0 <= #[trigger] idx[k] < n
    &&& distinct(idx)
    &&& forall|t: int| 0 <= t < n ==> ids(idx, 0, n).contains(t)
}

/// `b` holds the values of `a`, moved about only within positions `f .. f + c`.
pub open spec fn shuffled(a: Seq<usize>, b: Seq<usize>, f: int, c: int) -> bool {
    &&& a.len() == b.len()
    &&& forall|k: int| 0 <= k < a.len() && !(f <= k < f + c) ==> a[k] == b[k]
    &&& ids(a, f, c) == ids(b, f, c)
}

/// `idx` with the values at positions `p` and `q` exchanged.
pub open spec fn swapped(idx: Seq<usize>, p: int, q: int) -> Seq<usize> {
    idx.update(p, idx[q]).update(q, idx[p])
}

pub proof fn lemma_ids_step(idx: Seq<usize>, f: int, c: int)
    requires
        c >= 0,
    ensures
        ids(idx, f, c + 1) == ids(idx, f, c).insert(idx[f + c] as int),
{
    let a = ids(idx, f, c + 1);
    let b = ids(idx, f, c).insert(idx[f + c] as int);
    assert forall|t: int| a.contains(t) <==> b.contains(t) by {
        if a.contains(t) {
            let k = choose|k: int| f <= k < f + c + 1 && (#[trigger] idx[k]) as int == t;
            if k < f + c {
                assert(ids(idx, f, c).contains(t));
            }
        }
        if b.contains(t) {
            if t == idx[f + c] as int {
                assert(f <= f + c < f + c + 1 && idx[f + c] as int == t);
            } else {
                let k = choose|k: int| f <= k < f + c && (#[trigger] idx[k]) as int == t;
                assert(f <= k < f + c + 1 && idx[k] as int == t);
            }
        }
    }
    assert(a =~= b);
}

pub proof fn lemma_ids_finite(idx: Seq<usize>, f: int, c: int)
    ensures
        ids(idx, f, c).finite(),
        ids(idx, f, c).len() <= c || c < 0,
        c <= 0 ==> ids(idx, f, c) == Set::<int>::empty(),
    decreases c,
{
    if c <= 0 {
        assert(ids(idx, f, c) =~= Set::<int>::empty());
    } else {
        lemma_ids_finite(idx, f, c - 1);
        lemma_ids_step(idx, f, c - 1);
    }
}

pub proof fn lemma_ids_len(idx: Seq<usize>, f: int, c: int)
    requires
        distinct(idx),
        0 <= f,
        0 <= c,
        f + c <= idx.len(),
    ensures
        ids(idx, f, c).finite(),
        ids(idx, f, c).len() == c,
    decreases c,
{
    lemma_ids_finite(idx, f, c);
    if c > 0 {
        lemma_ids_len(idx, f, c - 1);
        lemma_ids_step(idx, f, c - 1);
        let t = idx[f + c - 1] as int;
        if ids(idx, f, c - 1).contains(t) {
            let k = choose|k: int| f <= k < f + c - 1 && (#[trigger] idx[k]) as int == t;
            assert(idx[k] == idx[f + c - 1]);
            assert(false);
        }
    }
}

pub proof fn lemma_ids_split(idx: Seq<usize>, f: int, k: int, c: int)
    requires
        0 <= k <= c,
    ensures
        ids(idx, f, c) == ids(idx, f, k).union(ids(idx, f + k, c - k)),
        distinct(idx) && 0 <= f && f + c <= idx.len() ==> ids(idx, f, k).disjoint(
            ids(idx, f + k, c - k),
        ),
{
    let a = ids(idx, f, c);
    let l = ids(idx, f, k);
    let r = ids(idx, f + k, c - k);
    assert forall|t: int| a.contains(t) <==> l.contains(t) || r.contains(t) by {
        if a.contains(t) {
            let j = choose|j: int| f <= j < f + c && (#[trigger] idx[j]) as int == t;
            if j < f + k {
                assert(l.contains(t));
            } else {
                assert(f + k <= j < f + k + (c - k) && idx[j] as int == t);
                assert(r.contains(t));
            }
        }
        if l.contains(t) {
            let j = choose|j: int| f <= j < f + k && (#[trigger] idx[j]) as int == t;
            assert(f <= j < f + c && idx[j] as int == t);
        }
        if r.contains(t) {
            let j = choose|j: int| f + k <= j < f + k + (c - k) && (#[trigger] idx[j]) as int == t;
            assert(f <= j < f + c && idx[j] as int == t);
        }
    }
    assert(a =~= l.union(r));
    if distinct(idx) && 0 <= f && f + c <= idx.len() {
        assert forall|t: int| !(l.contains(t) && r.contains(t)) by {
            if l.contains(t) && r.contains(t) {
                let j1 = choose|j: int| f <= j < f + k && (#[trigger] idx[j]) as int == t;
                let j2 = choose|j: int|
                    f + k <= j < f + k + (c - k) && (#[trigger] idx[j]) as int == t;
                assert(idx[j1] == idx[j2]);
                assert(false);
            }
        }
    }
}

pub proof fn lemma_ids_frame(a: Seq<usize>, b: Seq<usize>, f: int, c: int)
    requires
        forall|k: int| f <= k < f + c ==> a[k] == b[k],
    ensures
        ids(a, f, c) == ids(b, f, c),
{
    assert forall|t: int| ids(a, f, c).contains(t) <==> ids(b, f, c).contains(t) by {
        if ids(a, f, c).contains(t) {
            let k = choose|k: int| f <= k < f + c && (#[trigger] a[k]) as int == t;
            assert(f <= k < f + c && b[k] as int == t);
        }
        if ids(b, f, c).contains(t) {
            let k = choose|k: int| f <= k < f + c && (#[trigger] b[k]) as int == t;
            assert(f <= k < f + c && a[k] as int == t);
        }
    }
    assert(ids(a, f, c) =~= ids(b, f, c));
}

/// Exchanging two values inside a stretch leaves the stretch's set of values,
/// and distinctness, as they were.
pub proof fn lemma_swap(idx: Seq<usize>, p: int, q: int, f: int, c: int)
    requires
        0 <= f,
        f + c <= idx.len(),
        f <= p < f + c,
        f <= q < f + c,
    ensures
        shuffled(idx, swapped(idx, p, q), f, c),
        distinct(idx) ==> distinct(swapped(idx, p, q)),
{
    let s = swapped(idx, p, q);
    let other = |k: int|
        if k == p {
            q
        } else if k == q {
            p
        } else {
            k
        };
    assert forall|t: int| ids(idx, f, c).contains(t) <==> ids(s, f, c).contains(t) by {
        if ids(idx, f, c).contains(t) {
            let k = choose|k: int| f <= k < f + c && (#[trigger] idx[k]) as int == t;
            let k2 = other(k);
            assert(f <= k2 < f + c && s[k2] as int == t);
        }
        if ids(s, f, c).contains(t) {
            let k = choose|k: int| f <= k < f + c && (#[trigger] s[k]) as int == t;
            let k2 = other(k);
            assert(f <= k2 < f + c && idx[k2] as int == t);
        }
    }
    assert(ids(idx, f, c) =~= ids(s, f, c));
    if distinct(idx) {
        assert forall|i: int, j: int| 0 <= i < s.len() && 0 <= j < s.len() && i != j implies s[i]
            != s[j] by {
            assert(s[i] == idx[other(i)]);
            assert(s[j] == idx[other(j)]);
        }
    }
}

pub proof fn lemma_shuffled_trans(a: Seq<usize>, b: Seq<usize>, c: Seq<usize>, f: int, n: int)
    requires
        shuffled(a, b, f, n),
        shuffled(b, c, f, n),
    ensures
        shuffled(a, c, f, n),
{
}

/// A stretch that lies apart from the shuffled one, or holds all of it, keeps its set of values.
pub proof fn lemma_shuffled_outer(a: Seq<usize>, b: Seq<usize>, f: int, c: int, f2: int, c2: int)
    requires
        shuffled(a, b, f, c),
        0 <= f2,
        f2 + c2 <= a.len(),
        c >= 0,
        (f2 <= f && f + c <= f2 + c2) || f2 + c2 <= f || f + c <= f2,
    ensures
        ids(a, f2, c2) == ids(b, f2, c2),
{
    if f2 + c2 <= f || f + c <= f2 {
        lemma_ids_frame(a, b, f2, c2);
    } else {
        lemma_ids_split(a, f2, f - f2, c2);
        lemma_ids_split(b, f2, f - f2, c2);
        lemma_ids_split(a, f, c, c2 - (f - f2));
        lemma_ids_split(b, f, c, c2 - (f - f2));
        lemma_ids_frame(a, b, f2, f - f2);
        lemma_ids_frame(a, b, f + c, c2 - (f - f2) - c);
    }
}

/// A shuffle within `0 .. n` keeps a permutation a permutation.
pub proof fn lemma_shuffled_permutation(a: Seq<usize>, b: Seq<usize>, f: int, c: int, n: int)
    requires
        is_permutation(a, n),
        shuffled(a, b, f, c),
        distinct(b),
        0 <= f,
        0 <= c,
        f + c <= n,
    ensures
        is_permutation(b, n),
{
    lemma_shuffled_outer(a, b, f, c, 0, n);
    assert forall|k: int| 0 <= k < n implies 0 <= #[trigger] b[k] < n by {
        if f <= k < f + c {
            assert(ids(b, f, c).contains(b[k] as int));
            assert(ids(a, f, c).contains(b[k] as int));
            let j = choose|j: int| f <= j < f + c && (#[trigger] a[j]) as int == b[k] as int;
        }
    }
}

/// The identity arrangement is a permutation.
pub proof fn lemma_identity_permutation(idx: Seq<usize>, n: int)
    requires
        idx.len() == n,
        forall|k: int| 0 <= k < n ==> idx[k] == k,
    ensures
        is_permutation(idx, n),
{
    assert forall|t: int| 0 <= t < n implies ids(idx, 0, n).contains(t) by {
        assert(0 <= t < 0 + n && idx[t] as int == t);
    }
}

} // verus!

//! Sorted sequences of keys, and how insertion, removal and concatenation keep them sorted.
use vstd::prelude::*;
use crate::key::{BTreeKey, key_lt};

verus! {

broadcast use crate::key::group_key_order;

/// The keys of `s` are in strictly increasing order.
pub open spec fn strictly_sorted<K: BTreeKey>(s: Seq<K>) -> bool {
    forall|i: int, j: int| 0 <= i < j < s.len() ==> key_lt(#[trigger] s[i], #[trigger] s[j])
}

/// The views of a sequence of keys.
pub open spec fn views<K: View>(s: Seq<K>) -> Seq<K::V> {
    s.map_values(|k: K| k@)
}

/// The viewed keys of `s` are in strictly increasing order.
pub open spec fn sorted_views<K: BTreeKey>(s: Seq<K::V>) -> bool {
    forall|i: int, j: int| 0 <= i < j < s.len() ==> K::view_lt(#[trigger] s[i], #[trigger] s[j])
}

/// Every key of `a` comes before every key of `b`.
pub open spec fn all_below<K: BTreeKey>(a: Seq<K>, b: Seq<K>) -> bool {
    forall|i: int, j: int|
        0 <= i < a.len() && 0 <= j < b.len() ==> key_lt(#[trigger] a[i], #[trigger] b[j])
}

/// A sorted concatenation consists of two sorted parts, the first below the second.
pub proof fn lemma_sorted_split<K: BTreeKey>(a: Seq<K>, b: Seq<K>)
    requires
        strictly_sorted(a + b),
    ensures
        strictly_sorted(a),
        strictly_sorted(b),
        all_below(a, b),
{
    assert forall|i: int, j: int| 0 <= i < j < a.len() implies key_lt(#[trigger] a[i], #[trigger] a[j]) by {
        assert((a + b)[i] == a[i] && (a + b)[j] == a[j]);
    }
    assert forall|i: int, j: int| 0 <= i < j < b.len() implies key_lt(#[trigger] b[i], #[trigger] b[j]) by {
        assert((a + b)[a.len() + i] == b[i] && (a + b)[a.len() + j] == b[j]);
    }
    assert forall|i: int, j: int| 0 <= i < a.len() && 0 <= j < b.len() implies key_lt(#[trigger] a[i], #[trigger] b[j]) by {
        assert((a + b)[i] == a[i] && (a + b)[a.len() + j] == b[j]);
    }
}

/// A key that comes after everything in a sorted `p` and before everything in a sorted `q`
/// is in `p + c + q` exactly when it is in `c`.
pub proof fn lemma_contains_between<K: BTreeKey>(p: Seq<K>, c: Seq<K>, q: Seq<K>, key: K)
    requires
        strictly_sorted(p),
        strictly_sorted(q),
        p.len() > 0 ==> key_lt(p.last(), key),
        q.len() > 0 ==> key_lt(key, q[0]),
    ensures
        views(p + c + q).contains(key@) == views(c).contains(key@),
{
    let s = p + c + q;
    if views(s).contains(key@) {
        let k = choose|k: int| 0 <= k < views(s).len() && views(s)[k] == key@;
        assert(s[k]@ == key@);
        if k < p.len() {
            assert(s[k] == p[k]);
            if k < p.len() - 1 {
                assert(key_lt(p[k], p[p.len() - 1]));
            }
            assert(K::view_lt(key@, key@));
        } else if k >= p.len() + c.len() {
            let m = k - p.len() - c.len();
            assert(s[k] == q[m]);
            if m > 0 {
                assert(key_lt(q[0], q[m]));
            }
            assert(K::view_lt(key@, key@));
        } else {
            assert(s[k] == c[k - p.len()]);
            assert(views(c)[k - p.len()] == key@);
        }
    }
    if views(c).contains(key@) {
        let k = choose|k: int| 0 <= k < views(c).len() && views(c)[k] == key@;
        assert(s[p.len() + k] == c[k]);
        assert(views(s)[p.len() + k] == key@);
    }
}

/// `new` is `old` with `key` inserted at the place its order calls for.
pub open spec fn inserted_in_order<K: BTreeKey>(old: Seq<K>, new: Seq<K>, key: K) -> bool {
    exists|p: int|
        0 <= p <= old.len() && new == old.insert(p, key) && (p > 0 ==> key_lt(old[p - 1], key))
            && (p < old.len() ==> key_lt(key, old[p]))
}

/// `new` is `old` with one key viewed as `key` taken out.
pub open spec fn removed_once<K: View>(old: Seq<K>, new: Seq<K>, key: K) -> bool {
    exists|p: int| 0 <= p < old.len() && old[p]@ == key@ && new == old.remove(p)
}

/// Inserting in order into a sorted sequence keeps it sorted and adds exactly the key.
pub proof fn lemma_inserted_in_order<K: BTreeKey>(old: Seq<K>, new: Seq<K>, key: K)
    requires
        strictly_sorted(old),
        inserted_in_order(old, new, key),
    ensures
        strictly_sorted(new),
        new.len() == old.len() + 1,
        views(new).to_set() == views(old).to_set().insert(key@),
        !views(old).contains(key@),
{
    let p = choose|p: int|
        0 <= p <= old.len() && new == old.insert(p, key) && (p > 0 ==> key_lt(old[p - 1], key))
            && (p < old.len() ==> key_lt(key, old[p]));
    assert forall|i: int, j: int| 0 <= i < j < new.len() implies key_lt(#[trigger] new[i], #[trigger] new[j]) by {
        if i < p && j < p {
        } else if i < p && j == p {
            if i < p - 1 {
                assert(key_lt(old[i], old[p - 1]));
            }
        } else if i < p {
            assert(new[j] == old[j - 1]);
        } else if i == p {
            assert(new[j] == old[j - 1]);
            if j - 1 > p {
                assert(key_lt(old[p], old[j - 1]));
            }
        } else {
            assert(new[i] == old[i - 1] && new[j] == old[j - 1]);
        }
    }
    let vo = views(old);
    let vn = views(new);
    assert forall|x: K::V| vn.contains(x) <==> vo.contains(x) || x == key@ by {
        if vn.contains(x) {
            let k = choose|k: int| 0 <= k < vn.len() && vn[k] == x;
            if k < p {
                assert(vo[k] == x);
            } else if k > p {
                assert(vo[k - 1] == x);
            }
        }
        if vo.contains(x) {
            let k = choose|k: int| 0 <= k < vo.len() && vo[k] == x;
            if k < p {
                assert(vn[k] == x);
            } else {
                assert(vn[k + 1] == x);
            }
        }
        if x == key@ {
            assert(vn[p] == key@);
        }
    }
    assert(vn.to_set() =~= vo.to_set().insert(key@));
    if vo.contains(key@) {
        let k = choose|k: int| 0 <= k < vo.len() && vo[k] == key@;
        if k < p {
            if k < p - 1 {
                assert(key_lt(old[k], old[p - 1]));
            }
            assert(K::view_lt(key@, key@));
        } else {
            if k > p {
                assert(key_lt(old[p], old[k]));
            }
            assert(K::view_lt(key@, key@));
        }
    }
}

/// Removing one key from a sorted sequence keeps it sorted and takes exactly that key out.
pub proof fn lemma_removed_once<K: BTreeKey>(old: Seq<K>, new: Seq<K>, key: K)
    requires
        strictly_sorted(old),
        removed_once(old, new, key),
    ensures
        strictly_sorted(new),
        new.len() + 1 == old.len(),
        views(new).to_set() == views(old).to_set().remove(key@),
        views(old).contains(key@),
{
    let p = choose|p: int| 0 <= p < old.len() && old[p]@ == key@ && new == old.remove(p);
    assert forall|i: int, j: int| 0 <= i < j < new.len() implies key_lt(#[trigger] new[i], #[trigger] new[j]) by {
        let oi = if i < p { i } else { i + 1 };
        let oj = if j < p { j } else { j + 1 };
        assert(new[i] == old[oi] && new[j] == old[oj]);
    }
    let vo = views(old);
    let vn = views(new);
    assert(vo[p] == key@);
    assert forall|x: K::V| vn.contains(x) <==> vo.contains(x) && x != key@ by {
        if vn.contains(x) {
            let k = choose|k: int| 0 <= k < vn.len() && vn[k] == x;
            let ok = if k < p { k } else { k + 1 };
            assert(vo[ok] == x);
            if ok < p {
                assert(key_lt(old[ok], old[p]));
            } else {
                assert(key_lt(old[p], old[ok]));
            }
        }
        if vo.contains(x) && x != key@ {
            let k = choose|k: int| 0 <= k < vo.len() && vo[k] == x;
            if k < p {
                assert(vn[k] == x);
            } else {
                assert(vn[k - 1] == x);
            }
        }
    }
    assert(vn.to_set() =~= vo.to_set().remove(key@));
}

/// An in-order insertion into the middle part of `p + c + q`, with `key` between the outer parts.
pub proof fn lemma_inserted_in_middle<K: BTreeKey>(p: Seq<K>, c: Seq<K>, c2: Seq<K>, q: Seq<K>, key: K)
    requires
        inserted_in_order(c, c2, key),
        p.len() > 0 ==> key_lt(p.last(), key),
        q.len() > 0 ==> key_lt(key, q[0]),
    ensures
        inserted_in_order(p + c + q, p + c2 + q, key),
{
    let k = choose|k: int|
        0 <= k <= c.len() && c2 == c.insert(k, key) && (k > 0 ==> key_lt(c[k - 1], key))
            && (k < c.len() ==> key_lt(key, c[k]));
    let s = p + c + q;
    let at = p.len() + k;
    assert(p + c2 + q =~= s.insert(at, key));
    if at > 0 {
        if k > 0 {
            assert(s[at - 1] == c[k - 1]);
        } else {
            assert(s[at - 1] == p.last());
        }
    }
    if at < s.len() {
        if k < c.len() {
            assert(s[at] == c[k]);
        } else {
            assert(s[at] == q[0]);
        }
    }
}

/// A removal from the middle part of `p + c + q`.
pub proof fn lemma_removed_in_middle<K: View>(p: Seq<K>, c: Seq<K>, c2: Seq<K>, q: Seq<K>, key: K)
    requires
        removed_once(c, c2, key),
    ensures
        removed_once(p + c + q, p + c2 + q, key),
{
    let k = choose|k: int| 0 <= k < c.len() && c[k]@ == key@ && c2 == c.remove(k);
    let s = p + c + q;
    assert(p + c2 + q =~= s.remove(p.len() + k));
    assert(s[p.len() + k] == c[k]);
}

/// If a sorted sequence is cut as `p + c + q` and as `p2 + c2 + q2` with shorter outer parts,
/// bounds on the ends of `p` and `q` carry over to `p2` and `q2`.
pub proof fn lemma_bounds_shrink<K: BTreeKey>(
    p: Seq<K>,
    c: Seq<K>,
    q: Seq<K>,
    p2: Seq<K>,
    c2: Seq<K>,
    q2: Seq<K>,
    key: K,
)
    requires
        strictly_sorted(p + c + q),
        p + c + q == p2 + c2 + q2,
        p2.len() <= p.len(),
        q2.len() <= q.len(),
        p.len() > 0 ==> key_lt(p.last(), key),
        q.len() > 0 ==> key_lt(key, q[0]),
    ensures
        strictly_sorted(p2),
        strictly_sorted(c2),
        strictly_sorted(q2),
        p2.len() > 0 ==> key_lt(p2.last(), key),
        q2.len() > 0 ==> key_lt(key, q2[0]),
{
    let s = p + c + q;
    lemma_sorted_split(p2 + c2, q2);
    lemma_sorted_split(p2, c2);
    if p2.len() > 0 {
        let a = p2.len() - 1;
        let b = p.len() - 1;
        assert(s[a] == (p2 + c2 + q2)[a]);
        assert((p2 + c2 + q2)[a] == p2.last());
        assert(s[b] == p.last());
        if a < b {
            assert(key_lt(s[a], s[b]));
        }
    }
    if q2.len() > 0 {
        let a = s.len() - q2.len();
        let b = s.len() - q.len();
        assert(s[a] == (p2 + c2 + q2)[a]);
        assert((p2 + c2 + q2)[a] == q2[0]);
        assert(s[b] == q[0]);
        if b < a {
            assert(key_lt(s[b], s[a]));
        }
    }
}

/// A strictly sorted sequence of keys is determined by the set of their views.
pub proof fn lemma_sorted_unique<K: BTreeKey>(a: Seq<K>, b: Seq<K>)
    requires
        strictly_sorted(a),
        strictly_sorted(b),
        views(a).to_set() == views(b).to_set(),
    ensures
        views(a) == views(b),
    decreases a.len(),
{
    let va = views(a);
    let vb = views(b);
    if a.len() == 0 {
        if b.len() > 0 {
            assert(vb.to_set().contains(vb[0]));
        }
        assert(va =~= vb);
    } else {
        assert(va.to_set().contains(va[0]));
        assert(b.len() > 0);
        assert(vb.to_set().contains(vb[0]));
        let j = choose|j: int| 0 <= j < vb.len() && vb[j] == va[0];
        let k = choose|k: int| 0 <= k < va.len() && va[k] == vb[0];
        if j > 0 {
            assert(key_lt(b[0], b[j]));
            if k > 0 {
                assert(key_lt(a[0], a[k]));
            }
            assert(K::view_lt(vb[0], vb[0]));
        }
        let a1 = a.drop_first();
        let b1 = b.drop_first();
        assert forall|x: K::V| views(a1).contains(x) <==> views(b1).contains(x) by {
            if views(a1).contains(x) {
                let i = choose|i: int| 0 <= i < views(a1).len() && views(a1)[i] == x;
                assert(va[i + 1] == x);
                assert(va.to_set().contains(x));
                let m = choose|m: int| 0 <= m < vb.len() && vb[m] == x;
                assert(key_lt(a[0], a[i + 1]));
                if m == 0 {
                    assert(K::view_lt(va[0], va[0]));
                }
                assert(views(b1)[m - 1] == x);
            }
            if views(b1).contains(x) {
                let i = choose|i: int| 0 <= i < views(b1).len() && views(b1)[i] == x;
                assert(vb[i + 1] == x);
                assert(vb.to_set().contains(x));
                let m = choose|m: int| 0 <= m < va.len() && va[m] == x;
                assert(key_lt(b[0], b[i + 1]));
                if m == 0 {
                    assert(K::view_lt(vb[0], vb[0]));
                }
                assert(views(a1)[m - 1] == x);
            }
        }
        assert(views(a1).to_set() =~= views(b1).to_set());
        assert forall|i: int, l: int| 0 <= i < l < a1.len() implies key_lt(#[trigger] a1[i], #[trigger] a1[l]) by {
            assert(key_lt(a[i + 1], a[l + 1]));
        }
        assert forall|i: int, l: int| 0 <= i < l < b1.len() implies key_lt(#[trigger] b1[i], #[trigger] b1[l]) by {
            assert(key_lt(b[i + 1], b[l + 1]));
        }
        lemma_sorted_unique(a1, b1);
        assert(va.len() == vb.len());
        assert forall|i: int| 0 <= i < va.len() implies va[i] == vb[i] by {
            if i > 0 {
                assert(views(a1)[i - 1] == views(b1)[i - 1]);
            }
        }
        assert(va =~= vb);
    }
}

} // verus!

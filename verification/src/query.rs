//! Read-only walks over B-tree nodes: lookup, in-order listing, range listing, height.
use vstd::prelude::*;
use crate::key::{BTreeKey, KeyOrder, key_lt};
use crate::sorted::{strictly_sorted, views, lemma_contains_between};
use crate::node::Node;

verus! {

broadcast use crate::key::group_key_order;

/// Binary search for `key` among sorted keys: `Ok` with its index, or `Err` with the index
/// at which it would be inserted.
pub(crate) fn find_key<K: BTreeKey>(keys: &Vec<K>, key: &K) -> (r: Result<usize, usize>)
    requires
        strictly_sorted(keys@),
    ensures
        match r {
            Ok(i) => i < keys@.len() && keys@[i as int]@ == key@,
            Err(i) => {
                &&& i <= keys@.len()
                &&& forall|j: int| 0 <= j < i ==> key_lt(#[trigger] keys@[j], *key)
                &&& forall|j: int| i <= j < keys@.len() ==> key_lt(*key, #[trigger] keys@[j])
            },
        },
{
    let mut lo: usize = 0;
    let mut hi: usize = keys.len();
    while lo < hi
        invariant
            lo <= hi <= keys@.len(),
            strictly_sorted(keys@),
            forall|j: int| 0 <= j < lo ==> key_lt(#[trigger] keys@[j], *key),
            forall|j: int| hi <= j < keys@.len() ==> key_lt(*key, #[trigger] keys@[j]),
        decreases hi - lo,
    {
        let mid: usize = lo + (hi - lo) / 2;
        match keys[mid].compare(key) {
            KeyOrder::Less => {
                assert forall|j: int| 0 <= j < mid + 1 implies key_lt(#[trigger] keys@[j], *key) by {
                    if j < mid {
                        assert(key_lt(keys@[j], keys@[mid as int]));
                    }
                }
                lo = mid + 1;
            },
            KeyOrder::Equal => {
                return Ok(mid);
            },
            KeyOrder::Greater => {
                assert forall|j: int| mid <= j < keys@.len() implies key_lt(*key, #[trigger] keys@[j]) by {
                    if j > mid {
                        assert(key_lt(keys@[mid as int], keys@[j]));
                    }
                }
                hi = mid;
            },
        }
    }
    Err(lo)
}

/// Whether `key` is in the subtree rooted at `node`.
pub(crate) fn search_node<K: BTreeKey>(node: &Node<K>, key: &K, Ghost(t): Ghost<nat>, Ghost(h): Ghost<nat>) -> (found: bool)
    requires
        node.shape(t, h),
        strictly_sorted(node.content()),
    ensures
        found == views(node.content()).contains(key@),
    decreases h,
{
    proof {
        node.lemma_node_keys_sorted(t, h);
    }
    match find_key(&node.keys, key) {
        Ok(i) => {
            proof {
                if node.is_leaf {
                    node.lemma_leaf_content();
                    assert(views(node.content())[i as int] == key@);
                } else {
                    let cs = node.children@;
                    let ks = node.keys@;
                    Node::lemma_key_position(cs, ks, i as int);
                    let at = Node::pre(cs, ks, i as int).len() + cs[i as int].content().len() as int;
                    assert(views(node.content())[at] == key@);
                }
            }
            true
        },
        Err(i) => {
            if node.is_leaf {
                proof {
                    node.lemma_leaf_content();
                    assert forall|j: int| 0 <= j < node.keys@.len() implies views(node.keys@)[j] != key@ by {
                        if j < i {
                            assert(key_lt(node.keys@[j], *key));
                        } else {
                            assert(key_lt(*key, node.keys@[j]));
                        }
                    }
                }
                false
            } else {
                let ghost cs = node.children@;
                let ghost ks = node.keys@;
                proof {
                    Node::lemma_child_bounds(cs, ks, i as int);
                    lemma_contains_between(Node::pre(cs, ks, i as int), cs[i as int].content(), Node::post(cs, ks, i as int), *key);
                }
                search_node(&node.children[i], key, Ghost(t), Ghost((h - 1) as nat))
            }
        },
    }
}

/// The views of the keys that a sequence of references points to.
pub open spec fn ref_views<K: View>(s: Seq<&K>) -> Seq<K::V> {
    s.map_values(|r: &K| r@)
}

/// Whether a key's view lies between `low` and `high`, both included.
pub open spec fn in_range<K: BTreeKey>(low: K::V, high: K::V) -> spec_fn(K::V) -> bool {
    |v: K::V| !K::view_lt(v, low) && !K::view_lt(high, v)
}

proof fn lemma_ref_views_push<K: View>(s: Seq<&K>, r: &K)
    ensures
        ref_views(s.push(r)) == ref_views(s).push(r@),
{
    assert(ref_views(s.push(r)) =~= ref_views(s).push(r@));
}

/// Filtering a sequence none of whose elements pass gives the empty sequence.
proof fn lemma_filter_none<A>(s: Seq<A>, p: spec_fn(A) -> bool)
    requires
        forall|i: int| 0 <= i < s.len() ==> !p(#[trigger] s[i]),
    ensures
        s.filter(p) == Seq::<A>::empty(),
    decreases s.len(),
{
    reveal(Seq::filter);
    if s.len() > 0 {
        lemma_filter_none(s.drop_last(), p);
    }
}

/// Filtering a one-element sequence.
proof fn lemma_filter_single<A>(x: A, p: spec_fn(A) -> bool)
    ensures
        seq![x].filter(p) == (if p(x) { seq![x] } else { Seq::<A>::empty() }),
{
    reveal(Seq::filter);
    assert(seq![x].drop_last() =~= Seq::<A>::empty());
    lemma_filter_none(Seq::<A>::empty(), p);
    assert(seq![x].filter(p) =~= (if p(x) { seq![x] } else { Seq::<A>::empty() }));
}

/// In sorted keys, nothing after a key above `high` is in range.
proof fn lemma_rest_above<K: BTreeKey>(front: Seq<K>, rest: Seq<K>, low: K::V, high: K::V)
    requires
        strictly_sorted(front + rest),
        front.len() > 0,
        K::view_lt(high, front.last()@),
    ensures
        views(front + rest).filter(in_range::<K>(low, high)) == views(front).filter(in_range::<K>(low, high)),
{
    let p = in_range::<K>(low, high);
    let s = front + rest;
    assert forall|j: int| 0 <= j < views(rest).len() implies !p(#[trigger] views(rest)[j]) by {
        assert(key_lt(s[front.len() - 1], s[front.len() + j]));
        assert(s[front.len() + j] == rest[j]);
    }
    lemma_filter_none(views(rest), p);
    assert(views(front + rest) =~= views(front) + views(rest));
}

/// Appends the keys of the subtree rooted at `node` to `result`, in order.
pub(crate) fn inorder_rec<'a, K: BTreeKey>(node: &'a Node<K>, result: &mut Vec<&'a K>, Ghost(t): Ghost<nat>, Ghost(h): Ghost<nat>)
    requires
        node.shape(t, h),
    ensures
        ref_views(final(result)@) == ref_views(old(result)@) + views(node.content()),
    decreases h,
{
    let ghost r0 = ref_views(result@);
    let n: usize = node.keys.len();
    if node.is_leaf {
        proof {
            node.lemma_leaf_content();
        }
        let mut i: usize = 0;
        while i < n
            invariant
                n == node.keys@.len(),
                i <= n,
                ref_views(result@) == r0 + views(node.keys@.take(i as int)),
            decreases n - i,
        {
            let ghost before = result@;
            result.push(&node.keys[i]);
            proof {
                lemma_ref_views_push(before, &node.keys@[i as int]);
                assert(views(node.keys@.take(i + 1)) =~= views(node.keys@.take(i as int)).push(node.keys@[i as int]@));
            }
            i = i + 1;
        }
        proof {
            assert(node.keys@.take(n as int) =~= node.keys@);
        }
    } else {
        let ghost cs = node.children@;
        let ghost ks = node.keys@;
        let mut i: usize = 0;
        proof {
            assert(cs.take(0) =~= Seq::<Node<K>>::empty());
            assert(Node::pre(cs, ks, 0) == Seq::<K>::empty());
            assert(r0 + views(Node::pre(cs, ks, 0)) =~= r0);
        }
        while i < n
            invariant
                node.shape(t, h),
                h > 1,
                cs == node.children@,
                ks == node.keys@,
                n == ks.len(),
                i <= n,
                ref_views(result@) == r0 + views(Node::pre(cs, ks, i as int)),
            decreases n - i,
        {
            assert(cs[i as int].shape(t, (h - 1) as nat));
            inorder_rec(&node.children[i], result, Ghost(t), Ghost((h - 1) as nat));
            let ghost before = result@;
            result.push(&node.keys[i]);
            proof {
                lemma_ref_views_push(before, &ks[i as int]);
                Node::lemma_key_position(cs, ks, i as int);
                assert(ref_views(result@) =~= r0 + views(Node::pre(cs, ks, i + 1)));
            }
            i = i + 1;
        }
        assert(cs[n as int].shape(t, (h - 1) as nat));
        inorder_rec(&node.children[n], result, Ghost(t), Ghost((h - 1) as nat));
        proof {
            Node::lemma_flatten_at(cs, ks, n as int);
            assert(ks.skip(n as int) =~= Seq::<K>::empty());
            assert(Node::post(cs, ks, n as int) == Seq::<K>::empty());
            assert(node.content() =~= Node::pre(cs, ks, n as int) + cs[n as int].content());
            assert(ref_views(result@) =~= r0 + views(node.content()));
        }
    }
}

/// The height of the subtree rooted at `node`, following its leftmost path.
pub(crate) fn height_rec<K: BTreeKey>(node: &Node<K>, Ghost(t): Ghost<nat>, Ghost(h): Ghost<nat>) -> (r: usize)
    requires
        node.shape(t, h),
        h <= usize::MAX,
    ensures
        r == h,
    decreases h,
{
    if node.is_leaf {
        1
    } else {
        assert(node.children@[0].shape(t, (h - 1) as nat));
        1 + height_rec(&node.children[0], Ghost(t), Ghost((h - 1) as nat))
    }
}

/// Appends to `result`, in order, the keys of the subtree rooted at `node` that lie
/// between those of `low` and `high`, skipping children that hold only smaller keys and
/// stopping at the first key above `high`.
pub(crate) fn range_query_rec<'a, K: BTreeKey>(
    node: &'a Node<K>,
    low: &K,
    high: &K,
    result: &mut Vec<&'a K>,
    Ghost(t): Ghost<nat>,
    Ghost(h): Ghost<nat>,
)
    requires
        node.shape(t, h),
        strictly_sorted(node.content()),
    ensures
        ref_views(final(result)@) == ref_views(old(result)@) + views(node.content()).filter(in_range::<K>(low@, high@)),
    decreases h,
{
    let ghost r0 = ref_views(result@);
    let ghost p = in_range::<K>(low@, high@);
    let ghost cs = node.children@;
    let ghost ks = node.keys@;
    let n: usize = node.keys.len();
    let mut i: usize = 0;
    proof {
        if node.is_leaf {
            node.lemma_leaf_content();
        }
        assert(cs.take(0) =~= Seq::<Node<K>>::empty());
        assert(Node::pre(cs, ks, 0) == Seq::<K>::empty());
        lemma_filter_none(Seq::<K::V>::empty(), p);
        assert(views(ks.take(0)) =~= Seq::<K::V>::empty());
        assert(views(Node::pre(cs, ks, 0)) =~= Seq::<K::V>::empty());
        assert(r0 + Seq::<K::V>::empty() =~= r0);
    }
    while i < n
        invariant
            node.shape(t, h),
            strictly_sorted(node.content()),
            p == in_range::<K>(low@, high@),
            r0 == ref_views(old(result)@),
            cs == node.children@,
            ks == node.keys@,
            n == ks.len(),
            i <= n,
            node.is_leaf ==> node.content() == ks,
            node.is_leaf ==> ref_views(result@) == r0 + views(ks.take(i as int)).filter(p),
            !node.is_leaf ==> ref_views(result@) == r0 + views(Node::pre(cs, ks, i as int)).filter(p),
        decreases n - i,
    {
        let ghost r1 = ref_views(result@);
        if !node.is_leaf {
            proof {
                Node::lemma_child_bounds(cs, ks, i as int);
            }
            match low.compare(&node.keys[i]) {
                KeyOrder::Greater => {
                    proof {
                        let c = cs[i as int].content();
                        let q = Node::post(cs, ks, i as int);
                        assert forall|j: int| 0 <= j < views(c).len() implies !p(#[trigger] views(c)[j]) by {
                            assert(key_lt(c[j], q[0]));
                        }
                        lemma_filter_none(views(c), p);
                    }
                },
                _ => {
                    assert(cs[i as int].shape(t, (h - 1) as nat));
                    range_query_rec(&node.children[i], low, high, result, Ghost(t), Ghost((h - 1) as nat));
                },
            }
        }
        let ghost r2 = ref_views(result@);
        let k = &node.keys[i];
        let ghost before = result@;
        let above_high = match k.compare(high) {
            KeyOrder::Greater => true,
            _ => false,
        };
        let keep = !above_high && match k.compare(low) {
            KeyOrder::Less => false,
            _ => true,
        };
        if keep {
            result.push(k);
            proof {
                lemma_ref_views_push(before, k);
            }
        }
        proof {
            lemma_filter_single(ks[i as int]@, p);
            if node.is_leaf {
                assert(views(ks.take(i + 1)) =~= views(ks.take(i as int)) + seq![ks[i as int]@]);
                assert(ref_views(result@) =~= r0 + views(ks.take(i + 1)).filter(p));
            } else {
                Node::lemma_key_position(cs, ks, i as int);
                assert(r2 == r1 + views(cs[i as int].content()).filter(p));
                assert(views(Node::pre(cs, ks, i + 1)) =~= views(Node::pre(cs, ks, i as int)) + views(cs[i as int].content()) + seq![ks[i as int]@]);
                assert(ref_views(result@) =~= r0 + views(Node::pre(cs, ks, i + 1)).filter(p));
            }
        }
        if above_high {
            proof {
                if node.is_leaf {
                    assert(ks =~= ks.take(i + 1) + ks.skip(i + 1));
                    assert(ks.take(i + 1).last() == ks[i as int]);
                    lemma_rest_above(ks.take(i + 1), ks.skip(i + 1), low@, high@);
                } else {
                    let front = Node::pre(cs, ks, i + 1);
                    assert(front.last() == ks[i as int]);
                    lemma_rest_above(front, Node::flatten(cs.skip(i + 1), ks.skip(i + 1)), low@, high@);
                }
            }
            return;
        }
        i = i + 1;
    }
    if !node.is_leaf {
        assert(cs[n as int].shape(t, (h - 1) as nat));
        proof {
            Node::lemma_child_bounds(cs, ks, n as int);
        }
        range_query_rec(&node.children[n], low, high, result, Ghost(t), Ghost((h - 1) as nat));
        proof {
            Node::lemma_flatten_at(cs, ks, n as int);
            assert(ks.skip(n as int) =~= Seq::<K>::empty());
            assert(Node::post(cs, ks, n as int) == Seq::<K>::empty());
            assert(node.content() =~= Node::pre(cs, ks, n as int) + cs[n as int].content());
            assert(views(node.content()) =~= views(Node::pre(cs, ks, n as int)) + views(cs[n as int].content()));
            assert(ref_views(result@) =~= r0 + views(node.content()).filter(p));
        }
    } else {
        proof {
            assert(ks.take(n as int) =~= ks);
        }
    }
}

} // verus!

//! Deletion from a B-tree node: borrowing from and merging with siblings on the way down.
use vstd::prelude::*;
use crate::key::{BTreeKey, key_lt};
use crate::sorted::{strictly_sorted, views, removed_once, lemma_contains_between, lemma_removed_in_middle, lemma_bounds_shrink};
use crate::node::Node;
use crate::query::find_key;

verus! {

broadcast use crate::key::group_key_order;

/// Merges child `i + 1` and the key between them into child `i`. The node keeps the shape
/// of a B-tree when the merged child fits in a node.
pub(crate) fn merge_children<K: BTreeKey>(node: &mut Node<K>, i: usize, Ghost(t): Ghost<nat>, Ghost(h): Ghost<nat>)
    requires
        old(node).shape(t, h),
        h >= 2,
        t >= 2,
        i < old(node).keys@.len(),
    ensures
        old(node).children@[i as int].keys@.len() + old(node).children@[i + 1].keys@.len() + 2 <= 2 * t
            ==> final(node).shape(t, h),
        final(node).is_leaf == old(node).is_leaf,
        final(node).content() == old(node).content(),
        final(node).keys@ == old(node).keys@.remove(i as int),
        final(node).children@ == old(node).children@.remove(i + 1).update(i as int, final(node).children@[i as int]),
        final(node).children@[i as int].keys@ == old(node).children@[i as int].keys@ + seq![old(node).keys@[i as int]]
            + old(node).children@[i + 1].keys@,
        final(node).children@[i as int].children@ == old(node).children@[i as int].children@ + old(
            node,
        ).children@[i + 1].children@,
        final(node).children@[i as int].is_leaf == old(node).children@[i as int].is_leaf,
        final(node).children@[i as int].content() == old(node).children@[i as int].content()
            + seq![old(node).keys@[i as int]] + old(node).children@[i + 1].content(),
        merged_at(*old(node), *final(node), i as int),
{
    let ghost cs = node.children@;
    let ghost ks = node.keys@;
    let ghost l = cs[i as int];
    let ghost r = cs[i + 1];
    let ghost hc = (h - 1) as nat;
    assert(l.shape(t, hc) && r.shape(t, hc));
    let n: usize = node.keys.len();
    assert(i + 1 <= n);
    let sep = node.keys.remove(i);
    let mut right = node.children.remove(i + 1);
    let left = &mut node.children[i];
    left.keys.push(sep);
    left.keys.append(&mut right.keys);
    left.children.append(&mut right.children);
    proof {
        let m = *left;
        assert(m.keys@ =~= l.keys@ + seq![sep] + r.keys@);
        assert(m.children@ =~= l.children@ + r.children@);
        Node::lemma_join_halves(m, l, sep, r, t, hc);
    }
    proof {
        let cs2 = node.children@;
        let ks2 = node.keys@;
        assert(cs2.update(i as int, l).insert(i + 1, r) =~= cs);
        assert(ks2.insert(i as int, sep) =~= ks);
        Node::lemma_flatten_split(cs2, ks2, i as int, l, sep, r);
        assert(cs2 =~= cs.remove(i + 1).update(i as int, cs2[i as int]));
        if l.keys@.len() + r.keys@.len() + 2 <= 2 * t {
            assert forall|j: int| 0 <= j < cs2.len() implies {
                &&& (#[trigger] cs2[j]).shape(t, hc)
                &&& cs2[j].keys@.len() + 1 >= t
            } by {
                if j < i {
                    assert(cs2[j] == cs[j]);
                } else if j > i {
                    assert(cs2[j] == cs[j + 1]);
                }
            }
        }
    }
}

/// Shows that replacing children `j` and `j + 1` by shaped children of the same height
/// and with enough keys keeps the parent shaped.
proof fn lemma_parent_shape_pair<K: BTreeKey>(old_node: Node<K>, new_node: Node<K>, j: int, t: nat, h: nat)
    requires
        old_node.shape(t, h),
        h >= 2,
        0 <= j,
        j + 1 < old_node.children@.len(),
        new_node.is_leaf == old_node.is_leaf,
        new_node.keys@.len() == old_node.keys@.len(),
        new_node.children@ == old_node.children@.update(j, new_node.children@[j]).update(j + 1, new_node.children@[j + 1]),
        new_node.children@[j].shape(t, (h - 1) as nat),
        new_node.children@[j + 1].shape(t, (h - 1) as nat),
        new_node.children@[j].keys@.len() + 1 >= t,
        new_node.children@[j + 1].keys@.len() + 1 >= t,
    ensures
        new_node.shape(t, h),
{
    assert forall|k: int| 0 <= k < new_node.children@.len() implies {
        &&& (#[trigger] new_node.children@[k]).shape(t, (h - 1) as nat)
        &&& new_node.children@[k].keys@.len() + 1 >= t
    } by {
        if k != j && k != j + 1 {
            assert(new_node.children@[k] == old_node.children@[k]);
        }
    }
}

/// `new` is `old` after child `i` took a key from its left sibling: separator `i - 1` moved
/// down to the front of child `i`, the sibling's last key moved up in its place, and (for
/// internal children) the sibling's last child moved to the front of child `i`'s children.
pub(crate) open spec fn borrowed_from_left<K: BTreeKey>(old: Node<K>, new: Node<K>, i: int) -> bool {
    let a = old.children@[i - 1];
    let b = old.children@[i];
    let a2 = new.children@[i - 1];
    let b2 = new.children@[i];
    &&& new.is_leaf == old.is_leaf
    &&& new.keys@ == old.keys@.update(i - 1, a.keys@.last())
    &&& new.children@ == old.children@.update(i - 1, a2).update(i, b2)
    &&& a2.is_leaf == a.is_leaf
    &&& b2.is_leaf == b.is_leaf
    &&& a2.keys@ == a.keys@.drop_last()
    &&& b2.keys@ == seq![old.keys@[i - 1]] + b.keys@
    &&& a.is_leaf ==> a2.children@ == a.children@ && b2.children@ == b.children@
    &&& !a.is_leaf ==> a2.children@ == a.children@.drop_last() && b2.children@ == seq![a.children@.last()]
        + b.children@
}

/// `new` is `old` after child `i` took a key from its right sibling: separator `i` moved
/// down to the end of child `i`, the sibling's first key moved up in its place, and (for
/// internal children) the sibling's first child moved to the end of child `i`'s children.
pub(crate) open spec fn borrowed_from_right<K: BTreeKey>(old: Node<K>, new: Node<K>, i: int) -> bool {
    let a = old.children@[i];
    let b = old.children@[i + 1];
    let a2 = new.children@[i];
    let b2 = new.children@[i + 1];
    &&& new.is_leaf == old.is_leaf
    &&& new.keys@ == old.keys@.update(i, b.keys@[0])
    &&& new.children@ == old.children@.update(i, a2).update(i + 1, b2)
    &&& a2.is_leaf == a.is_leaf
    &&& b2.is_leaf == b.is_leaf
    &&& a2.keys@ == a.keys@.push(old.keys@[i])
    &&& b2.keys@ == b.keys@.drop_first()
    &&& a.is_leaf ==> a2.children@ == a.children@ && b2.children@ == b.children@
    &&& !a.is_leaf ==> a2.children@ == a.children@.push(b.children@[0]) && b2.children@
        == b.children@.drop_first()
}

/// `new` is `old` after children `i` and `i + 1` were merged around separator `i`.
pub(crate) open spec fn merged_at<K: BTreeKey>(old: Node<K>, new: Node<K>, i: int) -> bool {
    let l = old.children@[i];
    let r = old.children@[i + 1];
    let m = new.children@[i];
    &&& new.is_leaf == old.is_leaf
    &&& new.keys@ == old.keys@.remove(i)
    &&& new.children@ == old.children@.remove(i + 1).update(i, m)
    &&& m.is_leaf == l.is_leaf
    &&& m.keys@ == l.keys@ + seq![old.keys@[i]] + r.keys@
    &&& m.children@ == l.children@ + r.children@
}

/// Gives child `i` one more key by rotating through the parent from its left sibling.
pub(crate) fn rotate_right<K: BTreeKey>(node: &mut Node<K>, i: usize, Ghost(t): Ghost<nat>, Ghost(h): Ghost<nat>)
    requires
        old(node).shape(t, h),
        h >= 2,
        t >= 2,
        1 <= i < old(node).children@.len(),
        old(node).children@[i - 1].keys@.len() >= t,
        old(node).children@[i as int].keys@.len() + 2 <= 2 * t,
    ensures
        final(node).shape(t, h),
        final(node).content() == old(node).content(),
        final(node).keys@ == old(node).keys@.update(i - 1, final(node).keys@[i - 1]),
        final(node).children@ == old(node).children@.update(i - 1, final(node).children@[i - 1]).update(
            i as int,
            final(node).children@[i as int],
        ),
        final(node).children@[i as int].keys@.len() == old(node).children@[i as int].keys@.len() + 1,
        final(node).children@[i - 1].content().len() < old(node).children@[i - 1].content().len(),
        final(node).children@[i as int].content().len() > old(node).children@[i as int].content().len(),
        borrowed_from_left(*old(node), *final(node), i as int),
{
    let ghost cs = node.children@;
    let ghost ks = node.keys@;
    let ghost a = cs[i - 1];
    let ghost b = cs[i as int];
    assert(a.shape(t, (h - 1) as nat) && b.shape(t, (h - 1) as nat));
    let sep = node.keys.remove(i - 1);
    node.children[i].keys.insert(0, sep);
    let left_last_key = node.children[i - 1].keys.pop().unwrap();
    node.keys.insert(i - 1, left_last_key);
    if !node.children[i - 1].is_leaf {
        let last_child = node.children[i - 1].children.pop().unwrap();
        node.children[i].children.insert(0, last_child);
    }
    proof {
        let a2 = node.children@[i - 1];
        let b2 = node.children@[i as int];
        assert(a2.keys@ =~= a.keys@.drop_last());
        assert(b2.keys@ =~= seq![ks[i - 1]] + b.keys@);
        if !a.is_leaf {
            assert(a2.children@ =~= a.children@.drop_last());
            assert(b2.children@ =~= seq![a.children@.last()] + b.children@);
        }
        Node::lemma_shift_right(a, ks[i - 1], b, a2, b2, t, (h - 1) as nat);
        assert((a.content() + seq![ks[i - 1]] + b.content()).len() == (a2.content() + seq![a.keys@.last()] + b2.content()).len());
        assert(node.children@ =~= cs.update(i - 1, a2).update(i as int, b2));
        assert(node.keys@ =~= ks.update(i - 1, a.keys@.last()));
        Node::lemma_flatten_pair(cs, ks, i - 1, a2, a.keys@.last(), b2);
        lemma_parent_shape_pair(*old(node), *node, i - 1, t, h);
    }
}

/// Gives child `i` one more key by rotating through the parent from its right sibling.
pub(crate) fn rotate_left<K: BTreeKey>(node: &mut Node<K>, i: usize, Ghost(t): Ghost<nat>, Ghost(h): Ghost<nat>)
    requires
        old(node).shape(t, h),
        h >= 2,
        t >= 2,
        i + 1 < old(node).children@.len(),
        old(node).children@[i + 1].keys@.len() >= t,
        old(node).children@[i as int].keys@.len() + 2 <= 2 * t,
    ensures
        final(node).shape(t, h),
        final(node).content() == old(node).content(),
        final(node).keys@ == old(node).keys@.update(i as int, final(node).keys@[i as int]),
        final(node).children@ == old(node).children@.update(i as int, final(node).children@[i as int]).update(
            i + 1,
            final(node).children@[i + 1],
        ),
        final(node).children@[i as int].keys@.len() == old(node).children@[i as int].keys@.len() + 1,
        final(node).children@[i as int].content().len() > old(node).children@[i as int].content().len(),
        final(node).children@[i + 1].content().len() < old(node).children@[i + 1].content().len(),
        borrowed_from_right(*old(node), *final(node), i as int),
{
    let ghost cs = node.children@;
    let ghost ks = node.keys@;
    let ghost a = cs[i as int];
    let ghost b = cs[i + 1];
    assert(a.shape(t, (h - 1) as nat) && b.shape(t, (h - 1) as nat));
    let nc: usize = node.children.len();
    let j: usize = i + 1;
    let sep = node.keys.remove(i);
    node.children[i].keys.push(sep);
    let right_first_key = node.children[j].keys.remove(0);
    node.keys.insert(i, right_first_key);
    if !node.children[j].is_leaf {
        let first_child = node.children[j].children.remove(0);
        node.children[i].children.push(first_child);
    }
    proof {
        let a2 = node.children@[i as int];
        let b2 = node.children@[i + 1];
        assert(a2.keys@ =~= a.keys@.push(ks[i as int]));
        assert(b2.keys@ =~= b.keys@.drop_first());
        if !a.is_leaf {
            assert(a2.children@ =~= a.children@.push(b.children@[0]));
            assert(b2.children@ =~= b.children@.drop_first());
        }
        Node::lemma_shift_left(a, ks[i as int], b, a2, b2, t, (h - 1) as nat);
        assert((a.content() + seq![ks[i as int]] + b.content()).len() == (a2.content() + seq![b.keys@[0]] + b2.content()).len());
        assert(node.children@ =~= cs.update(i as int, a2).update(i + 1, b2));
        assert(node.keys@ =~= ks.update(i as int, b.keys@[0]));
        Node::lemma_flatten_pair(cs, ks, i as int, a2, b.keys@[0], b2);
        lemma_parent_shape_pair(*old(node), *node, i as int, t, h);
    }
}

#[verifier::rlimit(50)]
/// Makes sure child `i` has at least `t` keys before the descent into it, by borrowing from a
/// sibling or merging with one. Returns the index of the child that now holds child `i`'s keys.
pub(crate) fn ensure_child_has_t_keys<K: BTreeKey>(node: &mut Node<K>, i: usize, t: usize, n: usize, Ghost(h): Ghost<nat>) -> (idx: usize)
    requires
        old(node).shape(t as nat, h),
        h >= 2,
        2 <= t,
        n == old(node).keys@.len(),
        1 <= n,
        i <= n,
    ensures
        final(node).shape(t as nat, h),
        final(node).content() == old(node).content(),
        final(node).keys@.len() + 1 >= old(node).keys@.len(),
        idx < final(node).children@.len(),
        final(node).children@[idx as int].keys@.len() >= t,
        Node::pre(final(node).children@, final(node).keys@, idx as int).len()
            <= Node::pre(old(node).children@, old(node).keys@, i as int).len(),
        Node::post(final(node).children@, final(node).keys@, idx as int).len()
            <= Node::post(old(node).children@, old(node).keys@, i as int).len(),
        i < n ==> idx == i,
        i == n ==> idx == i || idx + 1 == i,
        i == n ==> idx + 1 == final(node).children@.len(),
        final(node).keys@.len() <= old(node).keys@.len(),
        n == 1 ==> (final(node).keys@.len() == 0 <==> (old(node).children@[0].keys@.len() + 1 == t
            && old(node).children@[1].keys@.len() + 1 == t)),
        ({
            let has_t = old(node).children@[i as int].keys@.len() >= t;
            let left_spare = i > 0 && old(node).children@[i - 1].keys@.len() >= t;
            let right_spare = i < n && old(node).children@[i + 1].keys@.len() >= t;
            &&& has_t ==> *final(node) == *old(node)
            &&& !has_t && left_spare ==> borrowed_from_left(*old(node), *final(node), i as int)
            &&& !has_t && !left_spare && right_spare ==> borrowed_from_right(*old(node), *final(node), i as int)
            &&& !has_t && !left_spare && !right_spare && i < n ==> merged_at(*old(node), *final(node), i as int)
            &&& !has_t && !left_spare && !right_spare && i == n ==> idx + 1 == i && merged_at(
                *old(node),
                *final(node),
                i - 1,
            )
        }),
{
    let ghost cs = node.children@;
    let ghost ks = node.keys@;
    if node.children[i].keys.len() >= t {
        return i;
    }
    assert(cs[i as int].keys@.len() + 1 == t);
    if i > 0 && node.children[i - 1].keys.len() >= t {
        rotate_right(node, i, Ghost(t as nat), Ghost(h));
        proof {
            let cs2 = node.children@;
            let ks2 = node.keys@;
            Node::lemma_key_position(cs, ks, i - 1);
            Node::lemma_key_position(cs2, ks2, i - 1);
            assert(cs2.take(i - 1) =~= cs.take(i - 1));
            assert(ks2.take(i - 1) =~= ks.take(i - 1));
            assert(cs2.skip(i + 1) =~= cs.skip(i + 1));
            assert(ks2.skip(i as int) =~= ks.skip(i as int));
        }
        return i;
    }
    if i < n && node.children[i + 1].keys.len() >= t {
        rotate_left(node, i, Ghost(t as nat), Ghost(h));
        proof {
            let cs2 = node.children@;
            let ks2 = node.keys@;
            assert(cs2.take(i as int) =~= cs.take(i as int));
            assert(ks2.take(i as int) =~= ks.take(i as int));
            Node::lemma_tail_first(cs.skip(i + 1), ks.skip(i as int));
            Node::lemma_tail_first(cs2.skip(i + 1), ks2.skip(i as int));
            assert(cs2.skip(i + 1).drop_first() =~= cs.skip(i + 1).drop_first());
            assert(ks2.skip(i as int).drop_first() =~= ks.skip(i as int).drop_first());
            assert(cs2.skip(i + 1)[0] == cs2[i + 1]);
            assert(cs.skip(i + 1)[0] == cs[i + 1]);
        }
        return i;
    }
    if i < n {
        merge_children(node, i, Ghost(t as nat), Ghost(h));
        proof {
            let cs2 = node.children@;
            let ks2 = node.keys@;
            assert(cs2.take(i as int) =~= cs.take(i as int));
            assert(ks2.take(i as int) =~= ks.take(i as int));
            Node::lemma_tail_first(cs.skip(i + 1), ks.skip(i as int));
            assert(cs2.skip(i + 1) =~= cs.skip(i + 1).drop_first());
            assert(ks2.skip(i as int) =~= ks.skip(i as int).drop_first());
        }
        i
    } else {
        merge_children(node, i - 1, Ghost(t as nat), Ghost(h));
        proof {
            let cs2 = node.children@;
            let ks2 = node.keys@;
            assert(cs2.take(i - 1) =~= cs.take(i - 1));
            assert(ks2.take(i - 1) =~= ks.take(i - 1));
            Node::lemma_key_position(cs, ks, i - 1);
            assert(cs2.skip(i as int) =~= cs.skip(i + 1));
            assert(ks2.skip(i - 1) =~= ks.skip(i as int));
        }
        i - 1
    }
}

/// Removes and returns the largest key of the subtree rooted at a node with at least `t` keys.
pub(crate) fn remove_predecessor<K: BTreeKey>(node: &mut Node<K>, t: usize, Ghost(h): Ghost<nat>) -> (k: K)
    requires
        old(node).shape(t as nat, h),
        2 <= t,
        old(node).keys@.len() >= t,
    ensures
        final(node).shape(t as nat, h),
        final(node).keys@.len() + 1 >= old(node).keys@.len(),
        old(node).content().len() > 0,
        k == old(node).content().last(),
        final(node).content() == old(node).content().drop_last(),
    decreases h,
{
    if node.is_leaf {
        proof {
            node.lemma_leaf_content();
        }
        let k = node.keys.pop().unwrap();
        proof {
            node.lemma_leaf_content();
        }
        k
    } else {
        let ghost c0 = node.content();
        let last: usize = node.children.len() - 1;
        let n: usize = node.keys.len();
        let child_idx: usize = if node.children[last].keys.len() < t {
            let _ = ensure_child_has_t_keys(node, last, t, n, Ghost(h));
            node.children.len() - 1
        } else {
            last
        };
        let ghost before = *node;
        let ghost cs = node.children@;
        let ghost ks = node.keys@;
        assert(cs[child_idx as int].shape(t as nat, (h - 1) as nat));
        let k = remove_predecessor(&mut node.children[child_idx], t, Ghost((h - 1) as nat));
        proof {
            let c2 = node.children@[child_idx as int];
            assert(node.children@ == cs.update(child_idx as int, c2));
            Node::lemma_update_last_drop_last(cs, ks, c2);
            before.lemma_shape_update(*node, t as nat, h, child_idx as int);
        }
        k
    }
}

/// Removes and returns the smallest key of the subtree rooted at a node with at least `t` keys.
pub(crate) fn remove_successor<K: BTreeKey>(node: &mut Node<K>, t: usize, Ghost(h): Ghost<nat>) -> (k: K)
    requires
        old(node).shape(t as nat, h),
        2 <= t,
        old(node).keys@.len() >= t,
    ensures
        final(node).shape(t as nat, h),
        final(node).keys@.len() + 1 >= old(node).keys@.len(),
        old(node).content().len() > 0,
        k == old(node).content()[0],
        final(node).content() == old(node).content().drop_first(),
    decreases h,
{
    if node.is_leaf {
        proof {
            node.lemma_leaf_content();
        }
        let k = node.keys.remove(0);
        proof {
            node.lemma_leaf_content();
        }
        k
    } else {
        let ghost c0 = node.content();
        let n: usize = node.keys.len();
        let child_idx: usize = if node.children[0].keys.len() < t {
            ensure_child_has_t_keys(node, 0, t, n, Ghost(h))
        } else {
            0
        };
        let ghost before = *node;
        let ghost cs = node.children@;
        let ghost ks = node.keys@;
        assert(cs[0].shape(t as nat, (h - 1) as nat));
        let k = remove_successor(&mut node.children[child_idx], t, Ghost((h - 1) as nat));
        proof {
            let c2 = node.children@[0];
            assert(node.children@ == cs.update(0, c2));
            Node::lemma_update_first_drop_first(cs, ks, c2);
            before.lemma_shape_update(*node, t as nat, h, 0);
        }
        k
    }
}

/// Putting the last key of child `i` in place of key `i` takes key `i` out of the in-order keys.
proof fn lemma_replace_by_predecessor<K: BTreeKey>(cs: Seq<Node<K>>, ks: Seq<K>, i: int, a: Node<K>, pred: K, key: K)
    requires
        cs.len() == ks.len() + 1,
        0 <= i < ks.len(),
        cs[i].content() == a.content().push(pred),
        ks[i]@ == key@,
    ensures
        removed_once(Node::flatten(cs, ks), Node::flatten(cs.update(i, a), ks.update(i, pred)), key),
{
    Node::lemma_flatten_window(cs, ks, i);
    Node::lemma_flatten_window_update(cs, ks, i, a, pred, cs[i + 1]);
    assert(cs.update(i, a).update(i + 1, cs[i + 1]) =~= cs.update(i, a));
    let p = Node::pre(cs, ks, i);
    let r = Node::tail(cs.skip(i + 2), ks.skip(i + 1));
    let c = cs[i].content();
    let d = cs[i + 1].content();
    let c0 = Node::flatten(cs, ks);
    assert(c0 =~= p + c + seq![ks[i]] + d + r);
    assert(Node::flatten(cs.update(i, a), ks.update(i, pred)) =~= c0.remove(p.len() + c.len() as int));
    assert(c0[p.len() + c.len() as int] == ks[i]);
}

/// Putting the first key of child `i + 1` in place of key `i` takes key `i` out of the
/// in-order keys.
proof fn lemma_replace_by_successor<K: BTreeKey>(cs: Seq<Node<K>>, ks: Seq<K>, i: int, b: Node<K>, succ: K, key: K)
    requires
        cs.len() == ks.len() + 1,
        0 <= i < ks.len(),
        cs[i + 1].content() == seq![succ] + b.content(),
        ks[i]@ == key@,
    ensures
        removed_once(Node::flatten(cs, ks), Node::flatten(cs.update(i + 1, b), ks.update(i, succ)), key),
{
    Node::lemma_flatten_window(cs, ks, i);
    Node::lemma_flatten_window_update(cs, ks, i, cs[i], succ, b);
    assert(cs.update(i, cs[i]).update(i + 1, b) =~= cs.update(i + 1, b));
    let p = Node::pre(cs, ks, i);
    let r = Node::tail(cs.skip(i + 2), ks.skip(i + 1));
    let c = cs[i].content();
    let c0 = Node::flatten(cs, ks);
    assert(c0 =~= p + c + seq![ks[i]] + cs[i + 1].content() + r);
    assert(Node::flatten(cs.update(i + 1, b), ks.update(i, succ)) =~= c0.remove(p.len() + c.len() as int));
    assert(c0[p.len() + c.len() as int] == ks[i]);
}

/// Deletes `key` from the subtree rooted at `node`, which (if internal) holds at least one
/// key, keeping every node it descends into above the minimum. Returns whether it was there.
pub(crate) fn delete_from<K: BTreeKey>(node: &mut Node<K>, key: &K, t: usize, Ghost(h): Ghost<nat>) -> (removed: bool)
    requires
        old(node).shape(t as nat, h),
        2 <= t,
        strictly_sorted(old(node).content()),
        h > 1 ==> old(node).keys@.len() >= 1,
    ensures
        final(node).shape(t as nat, h),
        final(node).keys@.len() + 1 >= old(node).keys@.len(),
        final(node).keys@.len() <= old(node).keys@.len(),
        removed == views(old(node).content()).contains(key@),
        removed ==> removed_once(old(node).content(), final(node).content(), *key),
        !removed ==> final(node).content() == old(node).content(),
        h > 1 && old(node).keys@.len() == 1 ==> (final(node).keys@.len() == 0 <==> (
        old(node).children@[0].keys@.len() + 1 == t && old(node).children@[1].keys@.len() + 1 == t)),
    decreases h,
{
    let ghost c0 = node.content();
    let ghost cs = node.children@;
    let ghost ks = node.keys@;
    let n: usize = node.keys.len();
    proof {
        node.lemma_node_keys_sorted(t as nat, h);
    }
    match find_key(&node.keys, key) {
        Ok(i) => {
            if node.is_leaf {
                proof {
                    node.lemma_leaf_content();
                }
                node.keys.remove(i);
                proof {
                    node.lemma_leaf_content();
                    assert(c0[i as int]@ == key@);
                    assert(views(c0)[i as int] == key@);
                }
                true
            } else {
                proof {
                    Node::lemma_key_position(cs, ks, i as int);
                    let at = Node::pre(cs, ks, i as int).len() + cs[i as int].content().len() as int;
                    assert(views(c0)[at] == key@);
                    assert(cs[i as int].shape(t as nat, (h - 1) as nat));
                    assert(cs[i + 1].shape(t as nat, (h - 1) as nat));
                }
                let ghost before = *node;
                if node.children[i].keys.len() >= t {
                    let pred = remove_predecessor(&mut node.children[i], t, Ghost((h - 1) as nat));
                    node.keys[i] = pred;
                    proof {
                        let a = node.children@[i as int];
                        assert(node.children@ == cs.update(i as int, a));
                        assert(node.keys@ == ks.update(i as int, pred));
                        assert(cs[i as int].content() =~= a.content().push(pred));
                        lemma_replace_by_predecessor(cs, ks, i as int, a, pred, *key);
                        before.lemma_shape_update(*node, t as nat, h, i as int);
                    }
                    true
                } else if node.children[i + 1].keys.len() >= t {
                    let succ = remove_successor(&mut node.children[i + 1], t, Ghost((h - 1) as nat));
                    node.keys[i] = succ;
                    proof {
                        let b = node.children@[i + 1];
                        assert(node.children@ == cs.update(i + 1, b));
                        assert(node.keys@ == ks.update(i as int, succ));
                        assert(cs[i + 1].content() =~= seq![succ] + b.content());
                        lemma_replace_by_successor(cs, ks, i as int, b, succ, *key);
                        before.lemma_shape_update(*node, t as nat, h, i + 1);
                    }
                    true
                } else {
                    merge_children(node, i, Ghost(t as nat), Ghost(h));
                    let ghost merged = *node;
                    let ghost cs2 = node.children@;
                    let ghost ks2 = node.keys@;
                    proof {
                        Node::lemma_child_bounds(cs2, ks2, i as int);
                        let m = cs2[i as int].content();
                        assert(m[cs[i as int].content().len() as int] == ks[i as int]);
                        assert(views(m)[cs[i as int].content().len() as int] == key@);
                        assert(cs2[i as int].shape(t as nat, (h - 1) as nat));
                    }
                    let removed = delete_from(&mut node.children[i], key, t, Ghost((h - 1) as nat));
                    proof {
                        let m2 = node.children@[i as int];
                        assert(node.children@ == cs2.update(i as int, m2));
                        Node::lemma_flatten_update(cs2, ks2, i as int, m2);
                        merged.lemma_shape_update(*node, t as nat, h, i as int);
                        lemma_removed_in_middle(Node::pre(cs2, ks2, i as int), cs2[i as int].content(), m2.content(), Node::post(cs2, ks2, i as int), *key);
                    }
                    removed
                }
            }
        },
        Err(i) => {
            if node.is_leaf {
                proof {
                    node.lemma_leaf_content();
                    assert forall|j: int| 0 <= j < ks.len() implies views(ks)[j] != key@ by {
                        if j < i {
                            assert(key_lt(ks[j], *key));
                        } else {
                            assert(key_lt(*key, ks[j]));
                        }
                    }
                }
                return false;
            }
            proof {
                Node::lemma_child_bounds(cs, ks, i as int);
                if i > 0 {
                    assert(key_lt(ks[i - 1], *key));
                }
                if i < n {
                    assert(key_lt(*key, ks[i as int]));
                }
            }
            let child_idx = ensure_child_has_t_keys(node, i, t, n, Ghost(h));
            let ghost mid = *node;
            let ghost cs2 = node.children@;
            let ghost ks2 = node.keys@;
            let ghost p2 = Node::pre(cs2, ks2, child_idx as int);
            let ghost c2 = cs2[child_idx as int].content();
            let ghost q2 = Node::post(cs2, ks2, child_idx as int);
            proof {
                Node::lemma_flatten_at(cs2, ks2, child_idx as int);
                assert(c0 == Node::pre(cs, ks, i as int) + cs[i as int].content() + Node::post(cs, ks, i as int));
                lemma_bounds_shrink(Node::pre(cs, ks, i as int), cs[i as int].content(), Node::post(cs, ks, i as int), p2, c2, q2, *key);
                lemma_contains_between(p2, c2, q2, *key);
                assert(cs2[child_idx as int].shape(t as nat, (h - 1) as nat));
            }
            let removed = delete_from(&mut node.children[child_idx], key, t, Ghost((h - 1) as nat));
            proof {
                let c3 = node.children@[child_idx as int];
                assert(node.children@ == cs2.update(child_idx as int, c3));
                Node::lemma_flatten_update(cs2, ks2, child_idx as int, c3);
                mid.lemma_shape_update(*node, t as nat, h, child_idx as int);
                if removed {
                    lemma_removed_in_middle(p2, c2, c3.content(), q2, *key);
                }
            }
            removed
        },
    }
}

} // verus!

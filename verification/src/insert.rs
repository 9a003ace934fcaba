//! Insertion into a B-tree node by proactive splitting.
use vstd::prelude::*;
use crate::key::{BTreeKey, KeyOrder, key_lt};
use crate::sorted::{strictly_sorted, views, inserted_in_order, lemma_contains_between, lemma_inserted_in_middle, lemma_inserted_in_order};
use crate::node::Node;
use crate::query::find_key;

verus! {

broadcast use crate::key::group_key_order;

/// Splits the full child `i` of `parent` around its median key, which moves up into
/// `parent` at index `i`; the upper half becomes child `i + 1`.
pub(crate) fn split_child<K: BTreeKey>(parent: &mut Node<K>, i: usize, t: usize, Ghost(h): Ghost<nat>)
    requires
        old(parent).shape(t as nat, h),
        h >= 2,
        2 <= t,
        old(parent).keys@.len() + 2 <= 2 * t,
        i < old(parent).children@.len(),
        old(parent).children@[i as int].keys@.len() + 1 == 2 * t,
    ensures
        final(parent).shape(t as nat, h),
        final(parent).content() == old(parent).content(),
        final(parent).keys@ == old(parent).keys@.insert(
            i as int,
            old(parent).children@[i as int].keys@[t - 1],
        ),
        final(parent).children@.len() == old(parent).children@.len() + 1,
        final(parent).children@[i as int].keys@.len() + 1 == t,
        final(parent).children@[i + 1].keys@.len() + 1 == t,
        final(parent).is_leaf == old(parent).is_leaf,
        final(parent).children@[i as int].keys@ == old(parent).children@[i as int].keys@.take(t - 1),
        final(parent).children@[i + 1].keys@ == old(parent).children@[i as int].keys@.skip(t as int),
        final(parent).children@[i as int].is_leaf == old(parent).children@[i as int].is_leaf,
        final(parent).children@[i + 1].is_leaf == old(parent).children@[i as int].is_leaf,
        old(parent).children@[i as int].is_leaf ==> final(parent).children@[i as int].children@.len() == 0
            && final(parent).children@[i + 1].children@.len() == 0,
        !old(parent).children@[i as int].is_leaf ==> final(parent).children@[i as int].children@
            == old(parent).children@[i as int].children@.take(t as int)
            && final(parent).children@[i + 1].children@ == old(parent).children@[i as int].children@.skip(
            t as int,
        ),
        forall|j: int| 0 <= j < i ==> final(parent).children@[j] == old(parent).children@[j],
        forall|j: int|
            i + 1 < j < final(parent).children@.len() ==> final(parent).children@[j] == old(
                parent,
            ).children@[j - 1],
{
    let ghost cs = parent.children@;
    let ghost ks = parent.keys@;
    let ghost c = cs[i as int];
    let ghost ck = c.keys@;
    let ghost cc = c.children@;
    let ghost hc = (h - 1) as nat;
    assert(c.shape(t as nat, hc));
    let nc: usize = parent.children.len();

    let child = &mut parent.children[i];
    let is_leaf = child.is_leaf;
    let right_keys = child.keys.split_off(t);
    let median = child.keys.pop().unwrap();
    let right_children = if !is_leaf {
        child.children.split_off(t)
    } else {
        Vec::new()
    };
    let new_child = Node { keys: right_keys, children: right_children, is_leaf };
    proof {
        assert(child.keys@ =~= ck.take(t - 1));
        assert(new_child.keys@ =~= ck.skip(t as int));
        if !is_leaf {
            assert(child.children@ =~= cc.take(t as int));
            assert(new_child.children@ =~= cc.skip(t as int));
        } else {
            assert(new_child.children@ =~= cc);
        }
        Node::lemma_split_halves(c, *child, new_child, t as nat, hc);
    }
    parent.keys.insert(i, median);
    parent.children.insert(i + 1, new_child);
    proof {
        let cs2 = parent.children@;
        assert(cs2 =~= cs.update(i as int, cs2[i as int]).insert(i + 1, new_child));
        Node::lemma_flatten_split(cs, ks, i as int, cs2[i as int], median, new_child);
        assert forall|j: int| 0 <= j < cs2.len() implies {
            &&& (#[trigger] cs2[j]).shape(t as nat, hc)
            &&& cs2[j].keys@.len() + 1 >= t
        } by {
            if j < i {
                assert(cs2[j] == cs[j]);
            } else if j > i + 1 {
                assert(cs2[j] == cs[j - 1]);
            }
        }
    }
}

/// Inserts `key` into the subtree rooted at a node that has room for one more key,
/// splitting full children on the way down. Returns whether the key was new.
pub(crate) fn insert_non_full<K: BTreeKey>(node: &mut Node<K>, key: K, t: usize, Ghost(h): Ghost<nat>) -> (inserted: bool)
    requires
        old(node).shape(t as nat, h),
        2 <= t,
        old(node).keys@.len() + 2 <= 2 * t,
        strictly_sorted(old(node).content()),
    ensures
        final(node).shape(t as nat, h),
        final(node).keys@.len() >= old(node).keys@.len(),
        final(node).keys@.len() <= old(node).keys@.len() + 1,
        !old(node).is_leaf && (forall|j: int| 0 <= j < old(node).children@.len()
            ==> #[trigger] old(node).children@[j].keys@.len() + 1 < 2 * t)
            ==> final(node).keys@.len() == old(node).keys@.len(),
        inserted == !views(old(node).content()).contains(key@),
        inserted ==> inserted_in_order(old(node).content(), final(node).content(), key),
        !inserted ==> final(node).content() == old(node).content(),
    decreases h,
{
    proof {
        node.lemma_node_keys_sorted(t as nat, h);
    }
    if node.is_leaf {
        proof {
            node.lemma_leaf_content();
        }
        match find_key(&node.keys, &key) {
            Ok(i) => {
                assert(views(node.content())[i as int] == key@);
                false
            },
            Err(pos) => {
                let ghost old_keys = node.keys@;
                node.keys.insert(pos, key);
                proof {
                    node.lemma_leaf_content();
                    assert(node.content() == old_keys.insert(pos as int, key));
                    if pos > 0 {
                        assert(key_lt(old_keys[pos - 1], key));
                    }
                    if pos < old_keys.len() {
                        assert(key_lt(key, old_keys[pos as int]));
                    }
                    assert(inserted_in_order(old_keys, node.content(), key));
                    lemma_inserted_in_order(old_keys, node.content(), key);
                }
                true
            },
        }
    } else {
        let ghost c0 = node.content();
        let ghost ks0 = node.keys@;
        let pos = match find_key(&node.keys, &key) {
            Ok(i) => {
                proof {
                    let cs = node.children@;
                    let ks = node.keys@;
                    Node::lemma_key_position(cs, ks, i as int);
                    let at = Node::pre(cs, ks, i as int).len() + cs[i as int].content().len() as int;
                    assert(views(c0)[at] == key@);
                }
                return false;
            },
            Err(p) => p,
        };
        let child_idx: usize = if node.children[pos].keys.len() >= t && node.children[pos].keys.len() - t == t - 1 {
            split_child(node, pos, t, Ghost(h));
            match key.compare(&node.keys[pos]) {
                KeyOrder::Equal => {
                    proof {
                        let cs = node.children@;
                        let ks = node.keys@;
                        Node::lemma_key_position(cs, ks, pos as int);
                        let at = Node::pre(cs, ks, pos as int).len() + cs[pos as int].content().len() as int;
                        assert(views(c0)[at] == key@);
                    }
                    return false;
                },
                KeyOrder::Greater => pos + 1,
                KeyOrder::Less => pos,
            }
        } else {
            pos
        };
        let ghost before = *node;
        let ghost cs = node.children@;
        let ghost ks = node.keys@;
        let ghost pre = Node::pre(cs, ks, child_idx as int);
        let ghost post = Node::post(cs, ks, child_idx as int);
        let ghost c = cs[child_idx as int].content();
        proof {
            Node::lemma_child_bounds(cs, ks, child_idx as int);
            if child_idx > 0 {
                assert(key_lt(ks[child_idx - 1], key));
            }
            if child_idx < ks.len() {
                assert(key_lt(key, ks[child_idx as int]));
            }
            lemma_contains_between(pre, c, post, key);
            assert(cs[child_idx as int].shape(t as nat, (h - 1) as nat));
        }
        let inserted = insert_non_full(&mut node.children[child_idx], key, t, Ghost((h - 1) as nat));
        proof {
            let c2 = node.children@[child_idx as int];
            assert(node.children@ == cs.update(child_idx as int, c2));
            Node::lemma_flatten_update(cs, ks, child_idx as int, c2);
            before.lemma_shape_update(*node, t as nat, h, child_idx as int);
            if inserted {
                lemma_inserted_in_middle(pre, c, c2.content(), post, key);
            }
        }
        inserted
    }
}

} // verus!

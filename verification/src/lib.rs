//! A B-tree set with a configurable minimum degree.
//!
//! Keys are kept in nodes holding between `t - 1` and `2t - 1` sorted keys (the root may
//! hold fewer); all leaves sit at the same depth. Insertion splits full nodes on the way
//! down; deletion borrows from or merges with siblings on the way down so that it never
//! has to walk back up.
//!
//! Keys are any type implementing [`BTreeKey`]: the primitive integers, `char`, `bool`,
//! `String`, `&str` and pairs of keys come with it.
use vstd::prelude::*;

pub mod key;
pub mod sorted;
pub mod text;
mod node;
pub mod query;
mod insert;
mod delete;

pub use crate::key::{BTreeKey, KeyOrder, key_lt};
use crate::sorted::{strictly_sorted, sorted_views, views, lemma_inserted_in_order, lemma_removed_once, lemma_sorted_unique};
use vstd::arithmetic::power::pow;
use crate::node::Node;
use crate::query::{search_node, inorder_rec, range_query_rec, height_rec, ref_views, in_range};
use crate::insert::{split_child, insert_non_full};
use crate::delete::delete_from;

verus! {

broadcast use crate::key::group_key_order;

/// A B-tree set of keys with minimum degree `t`: every node but the root holds between
/// `t - 1` and `2t - 1` keys.
pub struct BTree<K: BTreeKey> {
    root: Option<Node<K>>,
    t: usize,
    size: usize,
}

impl<K: BTreeKey> View for BTree<K> {
    type V = Seq<K::V>;

    /// The views of the keys of the tree, in increasing order.
    closed spec fn view(&self) -> Seq<K::V> {
        match self.root {
            None => Seq::empty(),
            Some(r) => views(r.content()),
        }
    }
}

impl<K: BTreeKey> BTree<K> {
    /// The tree is a well-formed B-tree of its minimum degree `t >= 2`: every node holds at
    /// most `2t - 1` keys, every node but the root at least `t - 1`, an internal root at
    /// least one; an internal node has one more child than keys; all leaves are at the same
    /// depth; the in-order keys are strictly increasing; and `size` counts them. An empty
    /// tree has no root node.
    pub closed spec fn wf(self) -> bool {
        &&& 2 <= self.t
        &&& match self.root {
            None => self.size == 0,
            Some(r) => {
                &&& r.shape(self.t as nat, r.depth())
                &&& r.keys@.len() >= 1
                &&& strictly_sorted(r.content())
                &&& self.size == r.content().len()
            },
        }
    }

    /// The minimum degree the tree was made with.
    pub closed spec fn degree(self) -> nat {
        self.t as nat
    }

    /// The number of levels of the tree: 0 when it has no root node, else the number of
    /// nodes on a path from the root to a leaf.
    pub closed spec fn levels(self) -> nat {
        match self.root {
            None => 0,
            Some(r) => r.depth(),
        }
    }

    /// The number of keys in the root node (0 when there is none).
    pub closed spec fn root_keys(self) -> nat {
        match self.root {
            None => 0,
            Some(r) => r.keys@.len(),
        }
    }

    /// The root has exactly two children, each holding the fewest keys allowed (`t - 1`).
    pub closed spec fn root_children_minimal(self) -> bool {
        match self.root {
            None => false,
            Some(r) => {
                &&& r.children@.len() == 2
                &&& r.children@[0].keys@.len() + 1 == self.t
                &&& r.children@[1].keys@.len() + 1 == self.t
            },
        }
    }

    /// Creates an empty B-tree with minimum degree `t`.
    pub fn new(t: usize) -> (tree: Self)
        requires
            2 <= t,
        ensures
            tree.wf(),
            tree@ == Seq::<K::V>::empty(),
            tree.degree() == t,
            tree.levels() == 0,
    {
        BTree { root: None, t, size: 0 }
    }

    /// Inserts `key`; returns true if it was not already present. The tree gains a level
    /// when it was empty or its root was full; the new root then holds one key. Otherwise
    /// the root gains at most one key.
    pub fn insert(&mut self, key: K) -> (inserted: bool)
        requires
            old(self).wf(),
            old(self)@.len() < usize::MAX,
        ensures
            final(self).wf(),
            final(self).degree() == old(self).degree(),
            inserted == !old(self)@.contains(key@),
            final(self)@.to_set() == old(self)@.to_set().insert(key@),
            final(self)@.len() == old(self)@.len() + if inserted { 1int } else { 0int },
            final(self)@.contains(key@),
            final(self).levels() == old(self).levels() + if old(self).levels() == 0
                || old(self).root_keys() + 1 == 2 * old(self).degree() { 1int } else { 0int },
            final(self).levels() == old(self).levels() + 1 ==> final(self).root_keys() == 1,
            final(self).levels() == old(self).levels() ==> old(self).root_keys() <= final(self).root_keys()
                <= old(self).root_keys() + 1,
    {
        let t: usize = self.t;
        match self.root.take() {
            None => {
                let mut leaf = Node::new_leaf();
                leaf.keys.push(key);
                proof {
                    leaf.lemma_leaf_content();
                    assert(views(leaf.content()) =~= seq![key@]);
                    assert(views(leaf.content())[0] == key@);
                    assert(old(self)@.to_set() =~= Set::<K::V>::empty());
                    assert(views(leaf.content()).to_set() =~= Set::<K::V>::empty().insert(key@));
                }
                self.root = Some(leaf);
                self.size = self.size + 1;
                true
            },
            Some(mut root) => {
                let ghost h = root.depth();
                let ghost c0 = root.content();
                if root.keys.len() >= t && root.keys.len() - t == t - 1 {
                    let mut new_root = Node::new_internal();
                    new_root.children.push(root);
                    proof {
                        new_root.lemma_single_child_content();
                        assert(new_root.children@[0] == root);
                        assert(new_root.shape(t as nat, h + 1));
                    }
                    split_child(&mut new_root, 0, t, Ghost(h + 1));
                    proof {
                        assert forall|j: int| 0 <= j < new_root.children@.len()
                            implies #[trigger] new_root.children@[j].keys@.len() + 1 < 2 * t by {
                            assert(j == 0 || j == 1);
                        }
                    }
                    let inserted = insert_non_full(&mut new_root, key, t, Ghost(h + 1));
                    proof {
                        new_root.lemma_shape_depth(t as nat, h + 1);
                        if inserted {
                            lemma_inserted_in_order(c0, new_root.content(), key);
                        } else {
                            assert(views(c0).to_set().insert(key@) =~= views(c0).to_set());
                        }
                        assert(views(new_root.content()).to_set().contains(key@));
                    }
                    self.root = Some(new_root);
                    if inserted {
                        self.size = self.size + 1;
                    }
                    inserted
                } else {
                    let inserted = insert_non_full(&mut root, key, t, Ghost(h));
                    proof {
                        root.lemma_shape_depth(t as nat, h);
                        if inserted {
                            lemma_inserted_in_order(c0, root.content(), key);
                        } else {
                            assert(views(c0).to_set().insert(key@) =~= views(c0).to_set());
                        }
                        assert(views(root.content()).to_set().contains(key@));
                    }
                    self.root = Some(root);
                    if inserted {
                        self.size = self.size + 1;
                    }
                    inserted
                }
            },
        }
    }

    /// Removes `key`; returns true if it was present. When the root is left without keys
    /// after a merge, its only child becomes the root and the tree loses a level; that
    /// happens when the root held one key and both its children the fewest allowed. A tree
    /// whose last key is removed has no root node. Otherwise the root of a tree of several
    /// levels loses at most one key.
    pub fn delete(&mut self, key: &K) -> (removed: bool)
        requires
            old(self).wf(),
        ensures
            final(self).wf(),
            final(self).degree() == old(self).degree(),
            removed == old(self)@.contains(key@),
            final(self)@.to_set() == old(self)@.to_set().remove(key@),
            final(self)@.len() == old(self)@.len() - if removed { 1int } else { 0int },
            !final(self)@.contains(key@),
            final(self).levels() == old(self).levels() - if (old(self).levels() == 1 && final(self)@.len()
                == 0) || (old(self).levels() > 1 && old(self).root_keys() == 1
                && old(self).root_children_minimal()) { 1int } else { 0int },
            old(self).levels() > 1 && final(self).levels() == old(self).levels() ==> final(self).root_keys()
                <= old(self).root_keys() <= final(self).root_keys() + 1,
    {
        match self.root.take() {
            None => {
                proof {
                    assert(old(self)@.to_set().remove(key@) =~= old(self)@.to_set());
                }
                false
            },
            Some(mut root) => {
                let ghost h = root.depth();
                let ghost c0 = root.content();
                let t: usize = self.t;
                let removed = delete_from(&mut root, key, t, Ghost(h));
                proof {
                    if removed {
                        lemma_removed_once(c0, root.content(), *key);
                    } else {
                        assert(views(c0).to_set().remove(key@) =~= views(c0).to_set());
                    }
                    assert(!views(root.content()).to_set().contains(key@));
                }
                if removed {
                    self.size = self.size - 1;
                }
                if root.keys.is_empty() && !root.children.is_empty() {
                    proof {
                        root.lemma_single_child_content();
                        root.children@[0].lemma_shape_depth(t as nat, (h - 1) as nat);
                    }
                    let mut children = root.children;
                    root = children.remove(0);
                } else {
                    proof {
                        root.lemma_shape_depth(t as nat, h);
                    }
                }
                if root.keys.is_empty() {
                    proof {
                        root.lemma_leaf_content();
                        assert(views(root.content()).len() == 0);
                        assert(views(root.content()).to_set() =~= Set::<K::V>::empty());
                    }
                    self.root = None;
                } else {
                    self.root = Some(root);
                }
                removed
            },
        }
    }

    /// Returns true if `key` is in the tree.
    pub fn search(&self, key: &K) -> (found: bool)
        requires
            self.wf(),
        ensures
            found == self@.contains(key@),
    {
        match &self.root {
            None => false,
            Some(root) => search_node(root, key, Ghost(self.t as nat), Ghost(root.depth())),
        }
    }

    /// Returns all keys in `[low, high]`, in increasing order.
    pub fn range_query(&self, low: &K, high: &K) -> (result: Vec<&K>)
        requires
            self.wf(),
        ensures
            ref_views(result@) == self@.filter(in_range::<K>(low@, high@)),
    {
        let mut result: Vec<&K> = Vec::new();
        proof {
            assert(ref_views(result@) =~= Seq::<K::V>::empty());
        }
        match &self.root {
            None => {
                proof {
                    Seq::<K::V>::empty().lemma_filter_len(in_range::<K>(low@, high@));
                }
            },
            Some(root) => {
                range_query_rec(root, low, high, &mut result, Ghost(self.t as nat), Ghost(root.depth()));
                proof {
                    assert(Seq::<K::V>::empty() + views(root.content()).filter(in_range::<K>(low@, high@)) =~= views(root.content()).filter(in_range::<K>(low@, high@)));
                }
            },
        }
        result
    }

    /// Returns all keys in increasing order.
    pub fn inorder(&self) -> (result: Vec<&K>)
        requires
            self.wf(),
        ensures
            ref_views(result@) == self@,
    {
        let mut result: Vec<&K> = Vec::new();
        proof {
            assert(ref_views(result@) =~= Seq::<K::V>::empty());
        }
        match &self.root {
            None => {},
            Some(root) => {
                inorder_rec(root, &mut result, Ghost(self.t as nat), Ghost(root.depth()));
                proof {
                    assert(Seq::<K::V>::empty() + views(root.content()) =~= views(root.content()));
                }
            },
        }
        result
    }

    /// Returns the height of the tree: 0 when empty, 1 for a root alone.
    pub fn height(&self) -> (h: usize)
        requires
            self.wf(),
        ensures
            h == self.levels(),
            h == 0 <==> self@.len() == 0,
    {
        proof {
            self.lemma_levels();
        }
        match &self.root {
            None => 0,
            Some(root) => {
                proof {
                    root.lemma_content_covers_depth(self.t as nat, root.depth());
                }
                height_rec(root, Ghost(self.t as nat), Ghost(root.depth()))
            },
        }
    }

    /// Returns the number of keys in the tree.
    pub fn len(&self) -> (n: usize)
        requires
            self.wf(),
        ensures
            n == self@.len(),
    {
        self.size
    }

    /// Returns true if the tree holds no key.
    pub fn is_empty(&self) -> (empty: bool)
        requires
            self.wf(),
        ensures
            empty == (self@.len() == 0),
    {
        self.size == 0
    }
}

impl<K: BTreeKey> BTree<K> {
    /// The keys of a well-formed tree are listed in strictly increasing order, each once.
    pub proof fn lemma_view_sorted(self)
        requires
            self.wf(),
        ensures
            sorted_views::<K>(self@),
            self@.no_duplicates(),
    {
        if let Some(r) = self.root {
            let c = r.content();
            assert forall|i: int, j: int| 0 <= i < j < self@.len() implies K::view_lt(#[trigger] self@[i], #[trigger] self@[j]) by {
                assert(key_lt(c[i], c[j]));
            }
            assert forall|i: int, j: int| 0 <= i < self@.len() && 0 <= j < self@.len() && i != j implies self@[i] != self@[j] by {
                if i < j {
                    assert(key_lt(c[i], c[j]));
                } else {
                    assert(key_lt(c[j], c[i]));
                }
            }
        }
    }

    /// Two well-formed trees holding the same set of keys list them identically.
    pub proof fn lemma_view_determined(self, other: Self)
        requires
            self.wf(),
            other.wf(),
            self@.to_set() == other@.to_set(),
        ensures
            self@ == other@,
    {
        let a = match self.root { Some(r) => r.content(), None => Seq::empty() };
        let b = match other.root { Some(r) => r.content(), None => Seq::empty() };
        assert(self@ == views(a));
        assert(other@ == views(b));
        lemma_sorted_unique(a, b);
    }

    /// Inserting a key that was absent and then deleting it gives back the same keys in the
    /// same order.
    pub proof fn lemma_insert_then_delete(before: Self, inserted: Self, after: Self, key: K)
        requires
            before.wf(),
            inserted.wf(),
            after.wf(),
            !before@.contains(key@),
            inserted@.to_set() == before@.to_set().insert(key@),
            after@.to_set() == inserted@.to_set().remove(key@),
        ensures
            after@ == before@,
    {
        assert(after@.to_set() =~= before@.to_set());
        after.lemma_view_determined(before);
    }

    /// Deleting a key that was present and then inserting it again gives back the same keys
    /// in the same order.
    pub proof fn lemma_delete_then_insert(before: Self, deleted: Self, after: Self, key: K)
        requires
            before.wf(),
            deleted.wf(),
            after.wf(),
            before@.contains(key@),
            deleted@.to_set() == before@.to_set().remove(key@),
            after@.to_set() == deleted@.to_set().insert(key@),
        ensures
            after@ == before@,
    {
        assert(after@.to_set() =~= before@.to_set());
        after.lemma_view_determined(before);
    }

    /// A tree has no levels exactly when it is empty; a tree of one level holds all its
    /// keys in the root; the root of a non-empty tree holds at least one key.
    pub proof fn lemma_levels(self)
        requires
            self.wf(),
        ensures
            self.levels() == 0 <==> self@.len() == 0,
            self.levels() == 1 ==> self.root_keys() == self@.len(),
            self@.len() > 0 ==> 1 <= self.root_keys() <= self@.len(),
    {
        if let Some(r) = self.root {
            let h = r.depth();
            r.lemma_shape_depth(self.t as nat, h);
            r.lemma_content_covers_depth(self.t as nat, h);
            r.lemma_keys_within_content(self.t as nat, h);
            if h == 1 {
                r.lemma_leaf_content();
            }
        }
    }

    /// A root whose two children hold the fewest keys allowed holds one key and sits above
    /// at least one more level. In a tree of two levels whose root holds one key, both
    /// children hold the fewest keys allowed exactly when the tree holds `2t - 1` keys.
    pub proof fn lemma_root_children(self)
        requires
            self.wf(),
        ensures
            self.root_children_minimal() ==> self.levels() >= 2 && self.root_keys() == 1,
            self.levels() == 2 && self.root_keys() == 1 ==> (self.root_children_minimal()
                <==> self@.len() + 1 == 2 * self.degree()),
    {
        if let Some(r) = self.root {
            let h = r.depth();
            let t = self.t as nat;
            if h == 2 && r.keys@.len() == 1 {
                let cs = r.children@;
                let ks = r.keys@;
                assert(cs[0].shape(t, 1));
                assert(cs[1].shape(t, 1));
                Node::lemma_flatten_split_at(cs, ks, 0);
                assert(cs.take(1) =~= seq![cs[0]]);
                assert(ks.take(0) =~= Seq::<K>::empty());
                assert(cs.skip(1) =~= seq![cs[1]]);
                assert(ks.skip(1) =~= Seq::<K>::empty());
                Node::lemma_flatten_single(cs[0]);
                Node::lemma_flatten_single(cs[1]);
                cs[0].lemma_leaf_content();
                cs[1].lemma_leaf_content();
                assert(r.content().len() == cs[0].keys@.len() + 1 + cs[1].keys@.len());
            }
        }
    }

    /// When keys are ordered by an integer rank of their views (for the primitive keys, the
    /// value itself: see `lemma_primitive_key_orders`), the tree lists its keys in strictly
    /// increasing rank, and the keys a range query keeps are exactly those whose rank lies
    /// between the ranks of `low` and `high`.
    pub proof fn lemma_order_by_rank(self, rank: spec_fn(K::V) -> int, low: K::V, high: K::V)
        requires
            self.wf(),
            forall|a: K::V, b: K::V| #[trigger] K::view_lt(a, b) <==> rank(a) < rank(b),
        ensures
            forall|i: int, j: int| 0 <= i < j < self@.len() ==> rank(self@[i]) < rank(self@[j]),
            self@.filter(in_range::<K>(low, high)) == self@.filter(
                |v: K::V| rank(low) <= rank(v) && rank(v) <= rank(high),
            ),
    {
        self.lemma_view_sorted();
        assert forall|i: int, j: int| 0 <= i < j < self@.len() implies rank(self@[i]) < rank(self@[j]) by {
            assert(K::view_lt(self@[i], self@[j]));
        }
        let p = in_range::<K>(low, high);
        let q = |v: K::V| rank(low) <= rank(v) && rank(v) <= rank(high);
        assert forall|v: K::V| #[trigger] p(v) == q(v) by {
            assert(K::view_lt(v, low) <==> rank(v) < rank(low));
            assert(K::view_lt(high, v) <==> rank(high) < rank(v));
        }
        assert(p =~= q);
    }

    /// A non-empty tree of minimum degree `t` and height `h` holds between `2 t^(h-1) - 1`
    /// and `(2t)^h - 1` keys, so its height grows only logarithmically with its size.
    pub proof fn lemma_height_bounds(self)
        requires
            self.wf(),
            self@.len() > 0,
        ensures
            self.levels() >= 1,
            2 * pow(self.degree() as int, (self.levels() - 1) as nat) <= self@.len() + 1,
            self@.len() + 1 <= pow(2 * self.degree() as int, self.levels()),
    {
        let r = self.root.unwrap();
        let h = r.depth();
        r.lemma_content_len_bounds(self.t as nat, h);
        if h == 1 {
            r.lemma_leaf_content();
        }
    }
}

impl<K: BTreeKey> Default for BTree<K> {
    /// An empty tree of minimum degree 2 (a 2-3-4 tree).
    fn default() -> (tree: Self)
        ensures
            tree.wf(),
            tree@ == Seq::<K::V>::empty(),
            tree.degree() == 2,
            tree.levels() == 0,
    {
        Self::new(2)
    }
}

} // verus!

//! Nodes of the B-tree and their mathematical model.
use vstd::prelude::*;
use vstd::arithmetic::power::{pow, lemma_pow0, lemma_pow1, lemma_pow_positive};
use crate::key::{BTreeKey, key_lt};
use crate::sorted::{strictly_sorted, all_below, lemma_sorted_split};

verus! {

broadcast use crate::key::group_key_order;

/// A node of the B-tree: sorted keys and, for an internal node, one more child than keys.
pub(crate) struct Node<K: BTreeKey> {
    pub(crate) keys: Vec<K>,
    pub(crate) children: Vec<Node<K>>,
    pub(crate) is_leaf: bool,
}

impl<K: BTreeKey> Node<K> {
    /// The keys of the subtree rooted here, in order.
    pub(crate) open spec fn content(self) -> Seq<K>
        decreases self,
    {
        Self::flatten(self.children@, self.keys@)
    }

    /// The in-order keys of a node with children `cs` and keys `ks` (just `ks` for a leaf).
    pub(crate) open spec fn flatten(cs: Seq<Node<K>>, ks: Seq<K>) -> Seq<K>
        decreases cs,
    {
        if cs.len() == 0 {
            ks
        } else {
            Self::pairs(cs.drop_last(), ks) + cs.last().content()
        }
    }

    /// The keys of `cs[0], ks[0], cs[1], ks[1], ...`: each child's content followed by a key.
    pub(crate) open spec fn pairs(cs: Seq<Node<K>>, ks: Seq<K>) -> Seq<K>
        decreases cs,
    {
        if cs.len() == 0 {
            Seq::empty()
        } else {
            cs[0].content() + seq![ks[0]] + Self::pairs(cs.drop_first(), ks.drop_first())
        }
    }

    /// The keys that follow a child: `ks[0], cs[0], ks[1], cs[1], ...` (empty when `ks` is).
    pub(crate) open spec fn tail(cs: Seq<Node<K>>, ks: Seq<K>) -> Seq<K> {
        if ks.len() == 0 {
            Seq::empty()
        } else {
            seq![ks[0]] + Self::flatten(cs, ks.drop_first())
        }
    }

    /// The keys before child `i`: children `0..i` each followed by its separating key.
    pub(crate) open spec fn pre(cs: Seq<Node<K>>, ks: Seq<K>, i: int) -> Seq<K> {
        Self::pairs(cs.take(i), ks.take(i))
    }

    /// The keys after child `i`: key `i`, child `i + 1`, and so on.
    pub(crate) open spec fn post(cs: Seq<Node<K>>, ks: Seq<K>, i: int) -> Seq<K> {
        Self::tail(cs.skip(i + 1), ks.skip(i))
    }

    /// Height of the subtree, following the leftmost path (a leaf has height 1).
    pub(crate) open spec fn depth(self) -> nat
        decreases self,
    {
        if self.children@.len() == 0 {
            1
        } else {
            1 + self.children@[0].depth()
        }
    }

    /// The shape of a B-tree of minimum degree `t` and height `h`: at most `2t - 1` keys,
    /// leaves exactly at height 1, one more child than keys in an internal node, and every
    /// child of height `h - 1` with at least `t - 1` keys.
    pub(crate) open spec fn shape(self, t: nat, h: nat) -> bool
        decreases self,
    {
        &&& 1 <= h
        &&& self.keys@.len() + 1 <= 2 * t
        &&& (self.is_leaf <==> h == 1)
        &&& if h == 1 {
            self.children@.len() == 0
        } else {
            &&& self.children@.len() == self.keys@.len() + 1
            &&& forall|i: int|
                0 <= i < self.children@.len() ==> {
                    &&& (#[trigger] self.children@[i]).shape(t, (h - 1) as nat)
                    &&& self.children@[i].keys@.len() + 1 >= t
                }
        }
    }
}

impl<K: BTreeKey> Node<K> {
    /// Appending a child and a key to `pairs` appends that child's content and the key.
    pub(crate) proof fn lemma_pairs_push(cs: Seq<Node<K>>, ks: Seq<K>, c: Node<K>, k: K)
        requires
            cs.len() == ks.len(),
        ensures
            Self::pairs(cs.push(c), ks.push(k)) == Self::pairs(cs, ks) + c.content() + seq![k],
        decreases cs.len(),
    {
        if cs.len() == 0 {
            assert(cs.push(c).drop_first() =~= Seq::<Node<K>>::empty());
            assert(Self::pairs(cs.push(c).drop_first(), ks.push(k).drop_first()) == Seq::<K>::empty());
            assert(cs.push(c)[0] == c);
            assert(Self::pairs(cs.push(c), ks.push(k)) =~= c.content() + seq![k]);
        } else {
            assert(cs.push(c).drop_first() =~= cs.drop_first().push(c));
            assert(ks.push(k).drop_first() =~= ks.drop_first().push(k));
            Self::lemma_pairs_push(cs.drop_first(), ks.drop_first(), c, k);
            assert(Self::pairs(cs.push(c), ks.push(k)) =~= Self::pairs(cs, ks) + c.content() + seq![k]);
        }
    }

    /// The in-order keys of an internal node start with its first child's content.
    pub(crate) proof fn lemma_flatten_first(cs: Seq<Node<K>>, ks: Seq<K>)
        requires
            cs.len() == ks.len() + 1,
        ensures
            Self::flatten(cs, ks) == cs[0].content() + Self::tail(cs.drop_first(), ks),
    {
        if ks.len() == 0 {
            assert(cs.drop_last() =~= Seq::<Node<K>>::empty());
            assert(Self::flatten(cs, ks) =~= cs[0].content());
        } else {
            assert(cs.drop_last().drop_first() =~= cs.drop_first().drop_last());
            assert(cs.drop_first().last() == cs.last());
            assert(Self::flatten(cs, ks) =~= cs[0].content() + Self::tail(cs.drop_first(), ks));
        }
    }

    /// The in-order keys of a node around its `i`-th child.
    pub(crate) proof fn lemma_flatten_at(cs: Seq<Node<K>>, ks: Seq<K>, i: int)
        requires
            cs.len() == ks.len() + 1,
            0 <= i < cs.len(),
        ensures
            Self::flatten(cs, ks) == Self::pairs(cs.take(i), ks.take(i)) + cs[i].content()
                + Self::tail(cs.skip(i + 1), ks.skip(i)),
        decreases i,
    {
        if i == 0 {
            Self::lemma_flatten_first(cs, ks);
            assert(cs.take(0) =~= Seq::<Node<K>>::empty());
            assert(cs.skip(1) =~= cs.drop_first());
            assert(ks.skip(0) =~= ks);
            assert(Self::flatten(cs, ks) =~= Self::pairs(cs.take(i), ks.take(i)) + cs[i].content()
                + Self::tail(cs.skip(i + 1), ks.skip(i)));
        } else {
            Self::lemma_flatten_at(cs, ks, i - 1);
            assert(cs.take(i) =~= cs.take(i - 1).push(cs[i - 1]));
            assert(ks.take(i) =~= ks.take(i - 1).push(ks[i - 1]));
            Self::lemma_pairs_push(cs.take(i - 1), ks.take(i - 1), cs[i - 1], ks[i - 1]);
            Self::lemma_flatten_first(cs.skip(i), ks.skip(i));
            assert(cs.skip(i).drop_first() =~= cs.skip(i + 1));
            assert(ks.skip(i - 1).drop_first() =~= ks.skip(i));
            assert(Self::flatten(cs, ks) =~= Self::pairs(cs.take(i), ks.take(i)) + cs[i].content()
                + Self::tail(cs.skip(i + 1), ks.skip(i)));
        }
    }

    /// Unfolding `tail` by one child.
    pub(crate) proof fn lemma_tail_first(cs: Seq<Node<K>>, ks: Seq<K>)
        requires
            cs.len() == ks.len(),
            ks.len() >= 1,
        ensures
            Self::tail(cs, ks) == seq![ks[0]] + cs[0].content() + Self::tail(
                cs.drop_first(),
                ks.drop_first(),
            ),
    {
        Self::lemma_flatten_first(cs, ks.drop_first());
        assert(Self::tail(cs, ks) =~= seq![ks[0]] + cs[0].content() + Self::tail(
            cs.drop_first(),
            ks.drop_first(),
        ));
    }
}

impl<K: BTreeKey> Node<K> {
    /// `pairs` distributes over concatenation.
    pub(crate) proof fn lemma_pairs_append(a: Seq<Node<K>>, ka: Seq<K>, b: Seq<Node<K>>, kb: Seq<K>)
        requires
            a.len() == ka.len(),
            b.len() == kb.len(),
        ensures
            Self::pairs(a + b, ka + kb) == Self::pairs(a, ka) + Self::pairs(b, kb),
        decreases b.len(),
    {
        if b.len() == 0 {
            assert(a + b =~= a);
            assert(ka + kb =~= ka);
            assert(Self::pairs(b, kb) == Seq::<K>::empty());
            assert(Self::pairs(a, ka) + Self::pairs(b, kb) =~= Self::pairs(a, ka));
        } else {
            let b0 = b.drop_last();
            let kb0 = kb.drop_last();
            Self::lemma_pairs_append(a, ka, b0, kb0);
            assert(a + b =~= (a + b0).push(b.last()));
            assert(ka + kb =~= (ka + kb0).push(kb.last()));
            assert(b =~= b0.push(b.last()));
            assert(kb =~= kb0.push(kb.last()));
            Self::lemma_pairs_push(a + b0, ka + kb0, b.last(), kb.last());
            Self::lemma_pairs_push(b0, kb0, b.last(), kb.last());
            assert(Self::pairs(a + b, ka + kb) =~= Self::pairs(a, ka) + Self::pairs(b, kb));
        }
    }

    /// Key `i` of an internal node sits in its in-order keys right after child `i`.
    pub(crate) proof fn lemma_key_position(cs: Seq<Node<K>>, ks: Seq<K>, i: int)
        requires
            cs.len() == ks.len() + 1,
            0 <= i < ks.len(),
        ensures
            Self::post(cs, ks, i) == seq![ks[i]] + Self::flatten(cs.skip(i + 1), ks.skip(i + 1)),
            Self::pre(cs, ks, i + 1) == Self::pre(cs, ks, i) + cs[i].content() + seq![ks[i]],
            Self::flatten(cs, ks) == Self::pre(cs, ks, i + 1) + Self::flatten(cs.skip(i + 1), ks.skip(i + 1)),
            Self::flatten(cs, ks)[Self::pre(cs, ks, i).len() + cs[i].content().len() as int] == ks[i],
    {
        Self::lemma_flatten_at(cs, ks, i);
        assert(ks.skip(i).drop_first() =~= ks.skip(i + 1));
        assert(ks.skip(i)[0] == ks[i]);
        assert(cs.take(i + 1) =~= cs.take(i).push(cs[i]));
        assert(ks.take(i + 1) =~= ks.take(i).push(ks[i]));
        Self::lemma_pairs_push(cs.take(i), ks.take(i), cs[i], ks[i]);
        let p = Self::pre(cs, ks, i);
        let c = cs[i].content();
        let f = Self::flatten(cs.skip(i + 1), ks.skip(i + 1));
        assert(Self::flatten(cs, ks) =~= p + c + seq![ks[i]] + f);
        assert((p + c + seq![ks[i]] + f)[p.len() + c.len() as int] == ks[i]);
    }

    /// The position of key `i` in the in-order keys grows with `i`.
    pub(crate) proof fn lemma_key_positions_increase(cs: Seq<Node<K>>, ks: Seq<K>, i: int, j: int)
        requires
            cs.len() == ks.len() + 1,
            0 <= i < j < ks.len(),
        ensures
            Self::pre(cs, ks, i).len() + cs[i].content().len() < Self::pre(cs, ks, j).len()
                + cs[j].content().len(),
    {
        Self::lemma_key_position(cs, ks, i);
        assert(cs.take(j) =~= cs.take(i + 1) + cs.subrange(i + 1, j));
        assert(ks.take(j) =~= ks.take(i + 1) + ks.subrange(i + 1, j));
        Self::lemma_pairs_append(cs.take(i + 1), ks.take(i + 1), cs.subrange(i + 1, j), ks.subrange(i + 1, j));
    }

    /// The keys of an internal node with sorted in-order keys are sorted.
    pub(crate) proof fn lemma_keys_sorted(cs: Seq<Node<K>>, ks: Seq<K>)
        requires
            cs.len() == ks.len() + 1,
            strictly_sorted(Self::flatten(cs, ks)),
        ensures
            strictly_sorted(ks),
    {
        let f = Self::flatten(cs, ks);
        assert forall|i: int, j: int| 0 <= i < j < ks.len() implies key_lt(#[trigger] ks[i], #[trigger] ks[j]) by {
            Self::lemma_key_position(cs, ks, i);
            Self::lemma_key_position(cs, ks, j);
            Self::lemma_key_positions_increase(cs, ks, i, j);
            let pi = Self::pre(cs, ks, i).len() + cs[i].content().len() as int;
            let pj = Self::pre(cs, ks, j).len() + cs[j].content().len() as int;
            assert(key_lt(f[pi], f[pj]));
        }
    }

    /// The in-order keys around child `i`, with the bounds that sortedness gives it.
    pub(crate) proof fn lemma_child_bounds(cs: Seq<Node<K>>, ks: Seq<K>, i: int)
        requires
            cs.len() == ks.len() + 1,
            0 <= i < cs.len(),
            strictly_sorted(Self::flatten(cs, ks)),
        ensures
            Self::flatten(cs, ks) == Self::pre(cs, ks, i) + cs[i].content() + Self::post(cs, ks, i),
            strictly_sorted(Self::pre(cs, ks, i)),
            strictly_sorted(cs[i].content()),
            strictly_sorted(Self::post(cs, ks, i)),
            all_below(Self::pre(cs, ks, i), cs[i].content()),
            all_below(cs[i].content(), Self::post(cs, ks, i)),
            all_below(Self::pre(cs, ks, i), Self::post(cs, ks, i)),
            i > 0 ==> Self::pre(cs, ks, i).len() > 0 && Self::pre(cs, ks, i).last() == ks[i - 1],
            i < ks.len() ==> Self::post(cs, ks, i).len() > 0 && Self::post(cs, ks, i)[0] == ks[i],
    {
        Self::lemma_flatten_at(cs, ks, i);
        let p = Self::pre(cs, ks, i);
        let c = cs[i].content();
        let q = Self::post(cs, ks, i);
        assert(Self::flatten(cs, ks) =~= (p + c) + q);
        lemma_sorted_split(p + c, q);
        lemma_sorted_split(p, c);
        assert forall|a: int, b: int| 0 <= a < p.len() && 0 <= b < q.len() implies key_lt(#[trigger] p[a], #[trigger] q[b]) by {
            assert((p + c)[a] == p[a]);
        }
        assert forall|a: int, b: int| 0 <= a < c.len() && 0 <= b < q.len() implies key_lt(#[trigger] c[a], #[trigger] q[b]) by {
            assert((p + c)[p.len() + a] == c[a]);
        }
        if i > 0 {
            Self::lemma_key_position(cs, ks, i - 1);
        }
        if i < ks.len() {
            Self::lemma_key_position(cs, ks, i);
        }
    }
}

impl<K: BTreeKey> Node<K> {
    /// The height given by `shape` is the height along the leftmost path.
    pub(crate) proof fn lemma_shape_depth(self, t: nat, h: nat)
        requires
            self.shape(t, h),
        ensures
            self.depth() == h,
        decreases h,
    {
        if h > 1 {
            self.children@[0].lemma_shape_depth(t, (h - 1) as nat);
        }
    }

    /// A leaf's in-order keys are its keys.
    pub(crate) proof fn lemma_leaf_content(self)
        requires
            self.children@.len() == 0,
        ensures
            self.content() == self.keys@,
    {
    }

    /// The keys of a node with sorted in-order keys are sorted.
    pub(crate) proof fn lemma_node_keys_sorted(self, t: nat, h: nat)
        requires
            self.shape(t, h),
            strictly_sorted(self.content()),
        ensures
            strictly_sorted(self.keys@),
    {
        if h > 1 {
            Self::lemma_keys_sorted(self.children@, self.keys@);
        }
    }
}

impl<K: BTreeKey> Node<K> {
    /// Splitting a full node at its median key: the two halves keep the shape, and the
    /// in-order keys are the lower half's, the median, then the upper half's.
    pub(crate) proof fn lemma_split_halves(c: Node<K>, left: Node<K>, right: Node<K>, t: nat, h: nat)
        requires
            c.shape(t, h),
            t >= 2,
            c.keys@.len() + 1 == 2 * t,
            left.is_leaf == c.is_leaf,
            right.is_leaf == c.is_leaf,
            left.keys@ == c.keys@.take(t - 1),
            right.keys@ == c.keys@.skip(t as int),
            left.children@ == (if c.is_leaf { c.children@ } else { c.children@.take(t as int) }),
            right.children@ == (if c.is_leaf { c.children@ } else { c.children@.skip(t as int) }),
        ensures
            left.shape(t, h),
            right.shape(t, h),
            left.keys@.len() + 1 == t,
            right.keys@.len() + 1 == t,
            c.content() == left.content() + seq![c.keys@[t - 1]] + right.content(),
    {
        let ck = c.keys@;
        let cc = c.children@;
        if c.is_leaf {
            assert(ck =~= left.keys@ + seq![ck[t - 1]] + right.keys@);
        } else {
            Self::lemma_key_position(cc, ck, t - 1);
            assert(left.children@.drop_last() =~= cc.take(t - 1));
            assert(left.content() == Self::pre(cc, ck, t - 1) + cc[t - 1].content());
            assert(c.content() =~= left.content() + seq![ck[t - 1]] + right.content());
            assert forall|j: int| 0 <= j < left.children@.len() implies {
                &&& (#[trigger] left.children@[j]).shape(t, (h - 1) as nat)
                &&& left.children@[j].keys@.len() + 1 >= t
            } by {
                assert(left.children@[j] == cc[j]);
            }
            assert forall|j: int| 0 <= j < right.children@.len() implies {
                &&& (#[trigger] right.children@[j]).shape(t, (h - 1) as nat)
                &&& right.children@[j].keys@.len() + 1 >= t
            } by {
                assert(right.children@[j] == cc[t + j]);
            }
        }
    }

    /// Replacing child `i` by two children around a new key `m` keeps the in-order keys when
    /// the old child's keys are the first child's, `m`, then the second child's.
    pub(crate) proof fn lemma_flatten_split(
        cs: Seq<Node<K>>,
        ks: Seq<K>,
        i: int,
        left: Node<K>,
        m: K,
        right: Node<K>,
    )
        requires
            cs.len() == ks.len() + 1,
            0 <= i < cs.len(),
            cs[i].content() == left.content() + seq![m] + right.content(),
        ensures
            Self::flatten(cs.update(i, left).insert(i + 1, right), ks.insert(i, m)) == Self::flatten(cs, ks),
    {
        let cs2 = cs.update(i, left).insert(i + 1, right);
        let ks2 = ks.insert(i, m);
        Self::lemma_flatten_at(cs, ks, i);
        Self::lemma_flatten_at(cs2, ks2, i);
        assert(cs2.take(i) =~= cs.take(i));
        assert(ks2.take(i) =~= ks.take(i));
        Self::lemma_tail_first(cs2.skip(i + 1), ks2.skip(i));
        assert(cs2.skip(i + 1).drop_first() =~= cs.skip(i + 1));
        assert(ks2.skip(i).drop_first() =~= ks.skip(i));
        assert(cs2[i] == left);
        assert(cs2.skip(i + 1)[0] == right);
        assert(ks2.skip(i)[0] == m);
        assert(Self::flatten(cs2, ks2) =~= Self::flatten(cs, ks));
    }
}

impl<K: BTreeKey> Node<K> {
    /// Replacing child `i` changes only that child's part of the in-order keys.
    pub(crate) proof fn lemma_flatten_update(cs: Seq<Node<K>>, ks: Seq<K>, i: int, c2: Node<K>)
        requires
            cs.len() == ks.len() + 1,
            0 <= i < cs.len(),
        ensures
            Self::flatten(cs.update(i, c2), ks) == Self::pre(cs, ks, i) + c2.content() + Self::post(cs, ks, i),
    {
        let cs2 = cs.update(i, c2);
        Self::lemma_flatten_at(cs2, ks, i);
        assert(cs2.take(i) =~= cs.take(i));
        assert(cs2.skip(i + 1) =~= cs.skip(i + 1));
    }

    /// Replacing child `i` by a child of the same height and enough keys keeps the shape.
    pub(crate) proof fn lemma_shape_update(self, other: Node<K>, t: nat, h: nat, i: int)
        requires
            self.shape(t, h),
            h > 1,
            0 <= i < self.children@.len(),
            other.is_leaf == self.is_leaf,
            other.keys@.len() == self.keys@.len(),
            other.children@ == self.children@.update(i, other.children@[i]),
            other.children@[i].shape(t, (h - 1) as nat),
            other.children@[i].keys@.len() + 1 >= t,
        ensures
            other.shape(t, h),
    {
        assert forall|j: int| 0 <= j < other.children@.len() implies {
            &&& (#[trigger] other.children@[j]).shape(t, (h - 1) as nat)
            &&& other.children@[j].keys@.len() + 1 >= t
        } by {
            if j != i {
                assert(other.children@[j] == self.children@[j]);
            }
        }
    }
}

impl<K: BTreeKey> Node<K> {
    /// An empty leaf.
    pub(crate) fn new_leaf() -> (n: Self)
        ensures
            n.keys@.len() == 0,
            n.children@.len() == 0,
            n.is_leaf,
    {
        Node { keys: Vec::new(), children: Vec::new(), is_leaf: true }
    }

    /// An internal node with no keys and no children yet.
    pub(crate) fn new_internal() -> (n: Self)
        ensures
            n.keys@.len() == 0,
            n.children@.len() == 0,
            !n.is_leaf,
    {
        Node { keys: Vec::new(), children: Vec::new(), is_leaf: false }
    }

    /// A node with no keys and a single child holds that child's keys.
    pub(crate) proof fn lemma_single_child_content(self)
        requires
            self.keys@.len() == 0,
            self.children@.len() == 1,
        ensures
            self.content() == self.children@[0].content(),
            self.depth() == 1 + self.children@[0].depth(),
    {
        assert(self.children@.drop_last() =~= Seq::<Node<K>>::empty());
        assert(Self::pairs(self.children@.drop_last(), self.keys@) == Seq::<K>::empty());
        assert(self.content() =~= self.children@[0].content());
    }
}

impl<K: BTreeKey> Node<K> {
    /// The in-order keys of a node split at key `j`: those of the node made of the first
    /// `j + 1` children and `j` keys, key `j`, then those of the node made of the rest.
    pub(crate) proof fn lemma_flatten_split_at(cs: Seq<Node<K>>, ks: Seq<K>, j: int)
        requires
            cs.len() == ks.len() + 1,
            0 <= j < ks.len(),
        ensures
            Self::flatten(cs, ks) == Self::flatten(cs.take(j + 1), ks.take(j)) + seq![ks[j]]
                + Self::flatten(cs.skip(j + 1), ks.skip(j + 1)),
    {
        {
            Self::lemma_key_position(cs, ks, j);
            assert(cs.take(j + 1).drop_last() =~= cs.take(j));
            assert(cs.take(j + 1).last() == cs[j]);
            assert(Self::flatten(cs.take(j + 1), ks.take(j)) == Self::pre(cs, ks, j) + cs[j].content());
            assert(Self::flatten(cs, ks) =~= Self::flatten(cs.take(j + 1), ks.take(j)) + seq![ks[j]]
                + Self::flatten(cs.skip(j + 1), ks.skip(j + 1)));
        }
    }

    /// The in-order keys of a lone child with no keys are that child's.
    pub(crate) proof fn lemma_flatten_single(c: Node<K>)
        ensures
            Self::flatten(seq![c], Seq::empty()) == c.content(),
    {
        assert(seq![c].drop_last() =~= Seq::<Node<K>>::empty());
        assert(Self::pairs(seq![c].drop_last(), Seq::<K>::empty()) == Seq::<K>::empty());
        assert(Self::flatten(seq![c], Seq::empty()) =~= c.content());
    }

    /// Replacing two neighbouring children and the key between them by two others and
    /// another key keeps the in-order keys when those three parts hold the same keys.
    pub(crate) proof fn lemma_flatten_pair(
        cs: Seq<Node<K>>,
        ks: Seq<K>,
        j: int,
        a: Node<K>,
        x: K,
        b: Node<K>,
    )
        requires
            cs.len() == ks.len() + 1,
            0 <= j < ks.len(),
            cs[j].content() + seq![ks[j]] + cs[j + 1].content() == a.content() + seq![x] + b.content(),
        ensures
            Self::flatten(cs.update(j, a).update(j + 1, b), ks.update(j, x)) == Self::flatten(cs, ks),
    {
        let cs2 = cs.update(j, a).update(j + 1, b);
        let ks2 = ks.update(j, x);
        Self::lemma_flatten_window(cs, ks, j);
        Self::lemma_flatten_window_update(cs, ks, j, a, x, b);
        let p = Self::pre(cs, ks, j);
        let r = Self::tail(cs.skip(j + 2), ks.skip(j + 1));
        assert(Self::flatten(cs, ks) =~= p + (cs[j].content() + seq![ks[j]] + cs[j + 1].content()) + r);
        assert(Self::flatten(cs2, ks2) =~= p + (a.content() + seq![x] + b.content()) + r);
        assert(Self::flatten(cs2, ks2) =~= Self::flatten(cs, ks));
    }
}

impl<K: BTreeKey> Node<K> {
    /// Moving the last key of `a` up and the separator `s` down to the front of `b`
    /// (with `a`'s last child going to the front of `b`'s children) keeps the keys of
    /// `a, s, b` in order and both nodes shaped.
    pub(crate) proof fn lemma_shift_right(a: Node<K>, s: K, b: Node<K>, a2: Node<K>, b2: Node<K>, t: nat, h: nat)
        requires
            a.shape(t, h),
            b.shape(t, h),
            t >= 2,
            a.keys@.len() >= t,
            b.keys@.len() + 2 <= 2 * t,
            a2.is_leaf == a.is_leaf,
            b2.is_leaf == b.is_leaf,
            a2.keys@ == a.keys@.drop_last(),
            b2.keys@ == seq![s] + b.keys@,
            a.is_leaf ==> a2.children@ == a.children@ && b2.children@ == b.children@,
            !a.is_leaf ==> a2.children@ == a.children@.drop_last() && b2.children@ == seq![a.children@.last()] + b.children@,
        ensures
            a2.shape(t, h),
            b2.shape(t, h),
            a.content() + seq![s] + b.content() == a2.content() + seq![a.keys@.last()] + b2.content(),
            a2.content().len() < a.content().len(),
    {
        let n = a.keys@.len() as int;
        let x = a.keys@.last();
        if a.is_leaf {
            assert(a.keys@ =~= a2.keys@ + seq![x]);
            assert(a.content() + seq![s] + b.content() =~= a2.content() + seq![x] + b2.content());
        } else {
            let z = a.children@.last();
            Self::lemma_flatten_split_at(a.children@, a.keys@, n - 1);
            assert(a.children@.take(n) =~= a2.children@);
            assert(a.keys@.take(n - 1) =~= a2.keys@);
            assert(a.children@.skip(n) =~= seq![z]);
            assert(a.keys@.skip(n) =~= Seq::<K>::empty());
            Self::lemma_flatten_single(z);
            Self::lemma_flatten_split_at(b2.children@, b2.keys@, 0);
            assert(b2.children@.take(1) =~= seq![z]);
            assert(b2.keys@.take(0) =~= Seq::<K>::empty());
            assert(b2.children@.skip(1) =~= b.children@);
            assert(b2.keys@.skip(1) =~= b.keys@);
            assert(a.content() + seq![s] + b.content() =~= a2.content() + seq![x] + b2.content());
            assert forall|j: int| 0 <= j < a2.children@.len() implies {
                &&& (#[trigger] a2.children@[j]).shape(t, (h - 1) as nat)
                &&& a2.children@[j].keys@.len() + 1 >= t
            } by {
                assert(a2.children@[j] == a.children@[j]);
            }
            assert forall|j: int| 0 <= j < b2.children@.len() implies {
                &&& (#[trigger] b2.children@[j]).shape(t, (h - 1) as nat)
                &&& b2.children@[j].keys@.len() + 1 >= t
            } by {
                if j == 0 {
                    assert(b2.children@[0] == a.children@[n]);
                } else {
                    assert(b2.children@[j] == b.children@[j - 1]);
                }
            }
        }
    }

    /// Moving the separator `s` down to the end of `a` and the first key of `b` up (with
    /// `b`'s first child going to the end of `a`'s children) keeps the keys of `a, s, b`
    /// in order and both nodes shaped.
    pub(crate) proof fn lemma_shift_left(a: Node<K>, s: K, b: Node<K>, a2: Node<K>, b2: Node<K>, t: nat, h: nat)
        requires
            a.shape(t, h),
            b.shape(t, h),
            t >= 2,
            b.keys@.len() >= t,
            a.keys@.len() + 2 <= 2 * t,
            a2.is_leaf == a.is_leaf,
            b2.is_leaf == b.is_leaf,
            a2.keys@ == a.keys@.push(s),
            b2.keys@ == b.keys@.drop_first(),
            a.is_leaf ==> a2.children@ == a.children@ && b2.children@ == b.children@,
            !a.is_leaf ==> a2.children@ == a.children@.push(b.children@[0]) && b2.children@ == b.children@.drop_first(),
        ensures
            a2.shape(t, h),
            b2.shape(t, h),
            a.content() + seq![s] + b.content() == a2.content() + seq![b.keys@[0]] + b2.content(),
            a2.content().len() > a.content().len(),
    {
        let n = a.keys@.len() as int;
        let x = b.keys@[0];
        if a.is_leaf {
            assert(b.keys@ =~= seq![x] + b2.keys@);
            assert(a.content() + seq![s] + b.content() =~= a2.content() + seq![x] + b2.content());
        } else {
            let z = b.children@[0];
            Self::lemma_flatten_split_at(b.children@, b.keys@, 0);
            assert(b.children@.take(1) =~= seq![z]);
            assert(b.keys@.take(0) =~= Seq::<K>::empty());
            assert(b.children@.skip(1) =~= b2.children@);
            assert(b.keys@.skip(1) =~= b2.keys@);
            Self::lemma_flatten_single(z);
            Self::lemma_flatten_split_at(a2.children@, a2.keys@, n);
            assert(a2.children@.take(n + 1) =~= a.children@);
            assert(a2.keys@.take(n) =~= a.keys@);
            assert(a2.children@.skip(n + 1) =~= seq![z]);
            assert(a2.keys@.skip(n + 1) =~= Seq::<K>::empty());
            assert(a.content() + seq![s] + b.content() =~= a2.content() + seq![x] + b2.content());
            assert forall|j: int| 0 <= j < a2.children@.len() implies {
                &&& (#[trigger] a2.children@[j]).shape(t, (h - 1) as nat)
                &&& a2.children@[j].keys@.len() + 1 >= t
            } by {
                if j < n + 1 {
                    assert(a2.children@[j] == a.children@[j]);
                } else {
                    assert(a2.children@[j] == b.children@[0]);
                }
            }
            assert forall|j: int| 0 <= j < b2.children@.len() implies {
                &&& (#[trigger] b2.children@[j]).shape(t, (h - 1) as nat)
                &&& b2.children@[j].keys@.len() + 1 >= t
            } by {
                assert(b2.children@[j] == b.children@[j + 1]);
            }
        }
    }
}

impl<K: BTreeKey> Node<K> {
    /// The in-order keys of a node around children `j`, `j + 1` and the key between them.
    pub(crate) proof fn lemma_flatten_window(cs: Seq<Node<K>>, ks: Seq<K>, j: int)
        requires
            cs.len() == ks.len() + 1,
            0 <= j < ks.len(),
        ensures
            Self::flatten(cs, ks) == Self::pre(cs, ks, j) + cs[j].content() + seq![ks[j]]
                + cs[j + 1].content() + Self::tail(cs.skip(j + 2), ks.skip(j + 1)),
    {
        Self::lemma_flatten_at(cs, ks, j);
        let s1 = cs.skip(j + 1);
        let k1 = ks.skip(j);
        assert(s1.len() == k1.len() && k1.len() >= 1);
        Self::lemma_tail_first(s1, k1);
        assert(s1.drop_first() =~= cs.skip(j + 2));
        assert(k1.drop_first() =~= ks.skip(j + 1));
        assert(s1[0] == cs[j + 1]);
        assert(k1[0] == ks[j]);
        assert(Self::flatten(cs, ks) =~= Self::pre(cs, ks, j) + cs[j].content() + seq![ks[j]]
            + cs[j + 1].content() + Self::tail(cs.skip(j + 2), ks.skip(j + 1)));
    }

    /// Replacing children `j`, `j + 1` and key `j` changes only that window of the in-order keys.
    pub(crate) proof fn lemma_flatten_window_update(
        cs: Seq<Node<K>>,
        ks: Seq<K>,
        j: int,
        a: Node<K>,
        x: K,
        b: Node<K>,
    )
        requires
            cs.len() == ks.len() + 1,
            0 <= j < ks.len(),
        ensures
            Self::flatten(cs.update(j, a).update(j + 1, b), ks.update(j, x)) == Self::pre(cs, ks, j)
                + a.content() + seq![x] + b.content() + Self::tail(cs.skip(j + 2), ks.skip(j + 1)),
    {
        let cs2 = cs.update(j, a).update(j + 1, b);
        let ks2 = ks.update(j, x);
        assert(cs2.len() == cs.len());
        assert(ks2.len() == ks.len());
        Self::lemma_flatten_window(cs2, ks2, j);
        assert(cs2.take(j) =~= cs.take(j));
        assert(ks2.take(j) =~= ks.take(j));
        assert(cs2.skip(j + 2) =~= cs.skip(j + 2));
        assert(ks2.skip(j + 1) =~= ks.skip(j + 1));
    }
}

impl<K: BTreeKey> Node<K> {
    /// A subtree whose root has a key holds at least one key per level.
    pub(crate) proof fn lemma_content_covers_depth(self, t: nat, h: nat)
        requires
            self.shape(t, h),
            t >= 2,
            self.keys@.len() >= 1,
        ensures
            self.content().len() >= h,
        decreases h,
    {
        if h == 1 {
            self.lemma_leaf_content();
        } else {
            let cs = self.children@;
            let ks = self.keys@;
            Self::lemma_flatten_at(cs, ks, 0);
            Self::lemma_key_position(cs, ks, 0);
            assert(cs[0].shape(t, (h - 1) as nat));
            cs[0].lemma_content_covers_depth(t, (h - 1) as nat);
        }
    }
}

impl<K: BTreeKey> Node<K> {
    /// Bounds on the number of keys in `pairs` from bounds on each child's.
    proof fn lemma_pairs_len_bounds(cs: Seq<Node<K>>, ks: Seq<K>, lo: int, hi: int)
        requires
            cs.len() == ks.len(),
            forall|i: int| 0 <= i < cs.len() ==> lo <= #[trigger] cs[i].content().len() <= hi,
        ensures
            cs.len() * (lo + 1) <= Self::pairs(cs, ks).len() <= cs.len() * (hi + 1),
        decreases cs.len(),
    {
        if cs.len() > 0 {
            let rest = cs.drop_first();
            assert forall|i: int| 0 <= i < rest.len() implies lo <= #[trigger] rest[i].content().len() <= hi by {
                assert(rest[i] == cs[i + 1]);
            }
            Self::lemma_pairs_len_bounds(rest, ks.drop_first(), lo, hi);
            assert(lo <= cs[0].content().len() <= hi);
            assert(Self::pairs(cs, ks).len() == cs[0].content().len() + 1 + Self::pairs(rest, ks.drop_first()).len());
            let n = cs.len() as int;
            assert((n - 1) * (lo + 1) + (lo + 1) == n * (lo + 1)) by (nonlinear_arith);
            assert((n - 1) * (hi + 1) + (hi + 1) == n * (hi + 1)) by (nonlinear_arith);
        }
    }

    /// A subtree of height `h` holds fewer than `(2t)^h` keys; at least `t^h - 1` when its root
    /// has `t - 1` keys, and at least `2 t^(h-1) - 1` when its root has a key.
    pub(crate) proof fn lemma_content_len_bounds(self, t: nat, h: nat)
        requires
            self.shape(t, h),
            t >= 2,
        ensures
            self.content().len() + 1 <= pow(2 * t as int, h),
            self.keys@.len() + 1 >= t ==> self.content().len() + 1 >= pow(t as int, h),
            self.keys@.len() >= 1 ==> self.content().len() + 1 >= 2 * pow(t as int, (h - 1) as nat),
        decreases h,
    {
        let tt = 2 * t;
        if h == 1 {
            self.lemma_leaf_content();
            lemma_pow1(tt as int);
            lemma_pow1(t as int);
            lemma_pow0(t as int);
        } else {
            let cs = self.children@;
            let ks = self.keys@;
            let n = ks.len() as int;
            let h1 = (h - 1) as nat;
            let lo = pow(t as int, h1) - 1;
            let hi = pow(tt as int, h1) - 1;
            assert forall|i: int| 0 <= i < cs.len() implies lo <= #[trigger] cs[i].content().len() <= hi by {
                cs[i].lemma_content_len_bounds(t, h1);
            }
            let d = cs.drop_last();
            assert forall|i: int| 0 <= i < d.len() implies lo <= #[trigger] d[i].content().len() <= hi by {
                assert(d[i] == cs[i]);
            }
            Self::lemma_pairs_len_bounds(d, ks, lo, hi);
            let len = self.content().len() as int;
            assert(lo <= cs[cs.len() - 1].content().len() <= hi);
            assert(d.len() == n);
            assert(self.content() == Self::pairs(d, ks) + cs.last().content());
            assert(n * (lo + 1) + lo <= len <= n * (hi + 1) + hi);
            reveal(pow);
            assert(pow(tt as int, h) == tt * pow(tt as int, h1));
            assert(pow(t as int, h) == t * pow(t as int, h1));
            lemma_pow_positive(tt as int, h1);
            lemma_pow_positive(t as int, h1);
            let pt = pow(t as int, h1);
            let p2 = pow(tt as int, h1);
            assert(n * p2 + p2 <= tt * p2) by (nonlinear_arith)
                requires
                    n + 1 <= tt,
                    p2 > 0,
            ;
            if n + 1 >= t {
                assert(n * pt + pt >= t * pt) by (nonlinear_arith)
                    requires
                        n + 1 >= t,
                        pt > 0,
                ;
            }
            if n >= 1 {
                assert(n * pt + pt >= 2 * pt) by (nonlinear_arith)
                    requires
                        n >= 1,
                        pt > 0,
                ;
            }
        }
    }
}

impl<K: BTreeKey> Node<K> {
    /// Joining two nodes of the same height around a key gives a node whose in-order keys are
    /// the first node's, the key, then the second's; it is shaped when it fits in a node.
    pub(crate) proof fn lemma_join_halves(m: Node<K>, left: Node<K>, sep: K, right: Node<K>, t: nat, h: nat)
        requires
            left.shape(t, h),
            right.shape(t, h),
            t >= 2,
            m.is_leaf == left.is_leaf,
            right.is_leaf == left.is_leaf,
            m.keys@ == left.keys@ + seq![sep] + right.keys@,
            m.children@ == left.children@ + right.children@,
        ensures
            left.keys@.len() + right.keys@.len() + 2 <= 2 * t ==> m.shape(t, h),
            m.content() == left.content() + seq![sep] + right.content(),
    {
        let j = left.keys@.len() as int;
        if left.is_leaf {
            assert(m.children@ =~= Seq::<Node<K>>::empty());
        } else {
            let cs = m.children@;
            let ks = m.keys@;
            assert forall|k: int| 0 <= k < cs.len() implies {
                &&& (#[trigger] cs[k]).shape(t, (h - 1) as nat)
                &&& cs[k].keys@.len() + 1 >= t
            } by {
                if k < left.children@.len() {
                    assert(cs[k] == left.children@[k]);
                } else {
                    assert(cs[k] == right.children@[k - left.children@.len()]);
                }
            }
            Self::lemma_flatten_split_at(cs, ks, j);
            assert(cs.take(j + 1) =~= left.children@);
            assert(ks.take(j) =~= left.keys@);
            assert(cs.skip(j + 1) =~= right.children@);
            assert(ks.skip(j + 1) =~= right.keys@);
            assert(ks[j] == sep);
        }
        assert(m.content() =~= left.content() + seq![sep] + right.content());
    }
}

impl<K: BTreeKey> Node<K> {
    /// Each child of `pairs` contributes at least its key.
    proof fn lemma_pairs_len_lower(cs: Seq<Node<K>>, ks: Seq<K>)
        requires
            cs.len() == ks.len(),
        ensures
            Self::pairs(cs, ks).len() >= cs.len(),
        decreases cs.len(),
    {
        if cs.len() > 0 {
            Self::lemma_pairs_len_lower(cs.drop_first(), ks.drop_first());
        }
    }

    /// A subtree holds at least the keys of its root.
    pub(crate) proof fn lemma_keys_within_content(self, t: nat, h: nat)
        requires
            self.shape(t, h),
        ensures
            self.keys@.len() <= self.content().len(),
    {
        if h == 1 {
            self.lemma_leaf_content();
        } else {
            Self::lemma_pairs_len_lower(self.children@.drop_last(), self.keys@);
        }
    }
}

impl<K: BTreeKey> Node<K> {
    /// Dropping the last key of the last child drops the last in-order key of the node.
    pub(crate) proof fn lemma_update_last_drop_last(cs: Seq<Node<K>>, ks: Seq<K>, c2: Node<K>)
        requires
            cs.len() == ks.len() + 1,
            cs.last().content().len() > 0,
            c2.content() == cs.last().content().drop_last(),
        ensures
            Self::flatten(cs, ks).len() > 0,
            Self::flatten(cs, ks).last() == cs.last().content().last(),
            Self::flatten(cs.update(cs.len() - 1, c2), ks) == Self::flatten(cs, ks).drop_last(),
    {
        let j = cs.len() - 1;
        Self::lemma_flatten_at(cs, ks, j);
        Self::lemma_flatten_update(cs, ks, j, c2);
        assert(ks.skip(j) =~= Seq::<K>::empty());
        let p = Self::pre(cs, ks, j);
        let c = cs[j].content();
        assert(Self::flatten(cs, ks) =~= p + c);
        assert(Self::flatten(cs.update(j, c2), ks) =~= (p + c).drop_last());
    }

    /// Dropping the first key of the first child drops the first in-order key of the node.
    pub(crate) proof fn lemma_update_first_drop_first(cs: Seq<Node<K>>, ks: Seq<K>, c2: Node<K>)
        requires
            cs.len() == ks.len() + 1,
            cs[0].content().len() > 0,
            c2.content() == cs[0].content().drop_first(),
        ensures
            Self::flatten(cs, ks).len() > 0,
            Self::flatten(cs, ks)[0] == cs[0].content()[0],
            Self::flatten(cs.update(0, c2), ks) == Self::flatten(cs, ks).drop_first(),
    {
        Self::lemma_flatten_at(cs, ks, 0);
        Self::lemma_flatten_update(cs, ks, 0, c2);
        assert(cs.take(0) =~= Seq::<Node<K>>::empty());
        let q = Self::post(cs, ks, 0);
        let c = cs[0].content();
        assert(Self::flatten(cs, ks) =~= c + q);
        assert(Self::flatten(cs.update(0, c2), ks) =~= (c + q).drop_first());
    }
}

} // verus!

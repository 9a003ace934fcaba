//! Keys of a B-tree: a strict total order with a three-way comparison.
use vstd::prelude::*;

verus! {

/// The outcome of comparing two keys.
#[derive(PartialEq, Eq, Structural, Clone, Copy, Debug)]
pub enum KeyOrder {
    Less,
    Equal,
    Greater,
}

/// A key type ordered by a strict total order on its view.
///
/// `view_lt` is the order; the proof functions state that it is irreflexive,
/// transitive and total, and `compare` decides it. Keys with equal views are the
/// same key as far as the tree is concerned.
pub trait BTreeKey: View + Sized {
    /// The key viewed as `a` comes strictly before the key viewed as `b`.
    spec fn view_lt(a: Self::V, b: Self::V) -> bool;

    /// No key comes before itself.
    proof fn lemma_irreflexive(a: Self::V)
        ensures
            !Self::view_lt(a, a),
    ;

    /// The order is transitive.
    proof fn lemma_transitive(a: Self::V, b: Self::V, c: Self::V)
        ensures
            Self::view_lt(a, b) && Self::view_lt(b, c) ==> Self::view_lt(a, c),
    ;

    /// Any two keys are equal or ordered one way.
    proof fn lemma_total(a: Self::V, b: Self::V)
        ensures
            Self::view_lt(a, b) || a == b || Self::view_lt(b, a),
    ;

    /// Three-way comparison of two keys.
    fn compare(&self, other: &Self) -> (c: KeyOrder)
        ensures
            c == KeyOrder::Less <==> Self::view_lt(self@, other@),
            c == KeyOrder::Equal <==> self@ == other@,
            c == KeyOrder::Greater <==> Self::view_lt(other@, self@),
    ;
}

/// Key `a` comes strictly before key `b`.
pub open spec fn key_lt<K: BTreeKey>(a: K, b: K) -> bool {
    K::view_lt(a@, b@)
}

/// No key comes before itself.
pub broadcast proof fn lemma_view_lt_irreflexive<K: BTreeKey>(a: K::V)
    ensures
        !(#[trigger] K::view_lt(a, a)),
{
    K::lemma_irreflexive(a);
}

/// The key order is transitive.
pub broadcast proof fn lemma_view_lt_transitive<K: BTreeKey>(a: K::V, b: K::V, c: K::V)
    ensures
        #![trigger K::view_lt(a, b), K::view_lt(b, c)]
        K::view_lt(a, b) && K::view_lt(b, c) ==> K::view_lt(a, c),
{
    K::lemma_transitive(a, b, c);
}

/// The facts about the key order that proofs use without being told.
pub broadcast group group_key_order {
    lemma_view_lt_irreflexive,
    lemma_view_lt_transitive,
}

impl BTreeKey for i8 {
    open spec fn view_lt(a: Self, b: Self) -> bool {
        a < b
    }

    proof fn lemma_irreflexive(a: Self) {
    }

    proof fn lemma_transitive(a: Self, b: Self, c: Self) {
    }

    proof fn lemma_total(a: Self, b: Self) {
    }

    fn compare(&self, other: &Self) -> (c: KeyOrder) {
        if *self < *other {
            KeyOrder::Less
        } else if *self == *other {
            KeyOrder::Equal
        } else {
            KeyOrder::Greater
        }
    }
}

impl BTreeKey for i16 {
    open spec fn view_lt(a: Self, b: Self) -> bool {
        a < b
    }

    proof fn lemma_irreflexive(a: Self) {
    }

    proof fn lemma_transitive(a: Self, b: Self, c: Self) {
    }

    proof fn lemma_total(a: Self, b: Self) {
    }

    fn compare(&self, other: &Self) -> (c: KeyOrder) {
        if *self < *other {
            KeyOrder::Less
        } else if *self == *other {
            KeyOrder::Equal
        } else {
            KeyOrder::Greater
        }
    }
}

impl BTreeKey for i32 {
    open spec fn view_lt(a: Self, b: Self) -> bool {
        a < b
    }

    proof fn lemma_irreflexive(a: Self) {
    }

    proof fn lemma_transitive(a: Self, b: Self, c: Self) {
    }

    proof fn lemma_total(a: Self, b: Self) {
    }

    fn compare(&self, other: &Self) -> (c: KeyOrder) {
        if *self < *other {
            KeyOrder::Less
        } else if *self == *other {
            KeyOrder::Equal
        } else {
            KeyOrder::Greater
        }
    }
}

impl BTreeKey for i64 {
    open spec fn view_lt(a: Self, b: Self) -> bool {
        a < b
    }

    proof fn lemma_irreflexive(a: Self) {
    }

    proof fn lemma_transitive(a: Self, b: Self, c: Self) {
    }

    proof fn lemma_total(a: Self, b: Self) {
    }

    fn compare(&self, other: &Self) -> (c: KeyOrder) {
        if *self < *other {
            KeyOrder::Less
        } else if *self == *other {
            KeyOrder::Equal
        } else {
            KeyOrder::Greater
        }
    }
}

impl BTreeKey for i128 {
    open spec fn view_lt(a: Self, b: Self) -> bool {
        a < b
    }

    proof fn lemma_irreflexive(a: Self) {
    }

    proof fn lemma_transitive(a: Self, b: Self, c: Self) {
    }

    proof fn lemma_total(a: Self, b: Self) {
    }

    fn compare(&self, other: &Self) -> (c: KeyOrder) {
        if *self < *other {
            KeyOrder::Less
        } else if *self == *other {
            KeyOrder::Equal
        } else {
            KeyOrder::Greater
        }
    }
}

impl BTreeKey for isize {
    open spec fn view_lt(a: Self, b: Self) -> bool {
        a < b
    }

    proof fn lemma_irreflexive(a: Self) {
    }

    proof fn lemma_transitive(a: Self, b: Self, c: Self) {
    }

    proof fn lemma_total(a: Self, b: Self) {
    }

    fn compare(&self, other: &Self) -> (c: KeyOrder) {
        if *self < *other {
            KeyOrder::Less
        } else if *self == *other {
            KeyOrder::Equal
        } else {
            KeyOrder::Greater
        }
    }
}

impl BTreeKey for u8 {
    open spec fn view_lt(a: Self, b: Self) -> bool {
        a < b
    }

    proof fn lemma_irreflexive(a: Self) {
    }

    proof fn lemma_transitive(a: Self, b: Self, c: Self) {
    }

    proof fn lemma_total(a: Self, b: Self) {
    }

    fn compare(&self, other: &Self) -> (c: KeyOrder) {
        if *self < *other {
            KeyOrder::Less
        } else if *self == *other {
            KeyOrder::Equal
        } else {
            KeyOrder::Greater
        }
    }
}

impl BTreeKey for u16 {
    open spec fn view_lt(a: Self, b: Self) -> bool {
        a < b
    }

    proof fn lemma_irreflexive(a: Self) {
    }

    proof fn lemma_transitive(a: Self, b: Self, c: Self) {
    }

    proof fn lemma_total(a: Self, b: Self) {
    }

    fn compare(&self, other: &Self) -> (c: KeyOrder) {
        if *self < *other {
            KeyOrder::Less
        } else if *self == *other {
            KeyOrder::Equal
        } else {
            KeyOrder::Greater
        }
    }
}

impl BTreeKey for u32 {
    open spec fn view_lt(a: Self, b: Self) -> bool {
        a < b
    }

    proof fn lemma_irreflexive(a: Self) {
    }

    proof fn lemma_transitive(a: Self, b: Self, c: Self) {
    }

    proof fn lemma_total(a: Self, b: Self) {
    }

    fn compare(&self, other: &Self) -> (c: KeyOrder) {
        if *self < *other {
            KeyOrder::Less
        } else if *self == *other {
            KeyOrder::Equal
        } else {
            KeyOrder::Greater
        }
    }
}

impl BTreeKey for u64 {
    open spec fn view_lt(a: Self, b: Self) -> bool {
        a < b
    }

    proof fn lemma_irreflexive(a: Self) {
    }

    proof fn lemma_transitive(a: Self, b: Self, c: Self) {
    }

    proof fn lemma_total(a: Self, b: Self) {
    }

    fn compare(&self, other: &Self) -> (c: KeyOrder) {
        if *self < *other {
            KeyOrder::Less
        } else if *self == *other {
            KeyOrder::Equal
        } else {
            KeyOrder::Greater
        }
    }
}

impl BTreeKey for u128 {
    open spec fn view_lt(a: Self, b: Self) -> bool {
        a < b
    }

    proof fn lemma_irreflexive(a: Self) {
    }

    proof fn lemma_transitive(a: Self, b: Self, c: Self) {
    }

    proof fn lemma_total(a: Self, b: Self) {
    }

    fn compare(&self, other: &Self) -> (c: KeyOrder) {
        if *self < *other {
            KeyOrder::Less
        } else if *self == *other {
            KeyOrder::Equal
        } else {
            KeyOrder::Greater
        }
    }
}

impl BTreeKey for usize {
    open spec fn view_lt(a: Self, b: Self) -> bool {
        a < b
    }

    proof fn lemma_irreflexive(a: Self) {
    }

    proof fn lemma_transitive(a: Self, b: Self, c: Self) {
    }

    proof fn lemma_total(a: Self, b: Self) {
    }

    fn compare(&self, other: &Self) -> (c: KeyOrder) {
        if *self < *other {
            KeyOrder::Less
        } else if *self == *other {
            KeyOrder::Equal
        } else {
            KeyOrder::Greater
        }
    }
}

impl BTreeKey for char {
    open spec fn view_lt(a: Self, b: Self) -> bool {
        (a as int) < (b as int)
    }

    proof fn lemma_irreflexive(a: Self) {
    }

    proof fn lemma_transitive(a: Self, b: Self, c: Self) {
    }

    proof fn lemma_total(a: Self, b: Self) {
    }

    fn compare(&self, other: &Self) -> (c: KeyOrder) {
        if *self < *other {
            KeyOrder::Less
        } else if *self == *other {
            KeyOrder::Equal
        } else {
            KeyOrder::Greater
        }
    }
}

/// `false` comes before `true`.
impl BTreeKey for bool {
    open spec fn view_lt(a: Self, b: Self) -> bool {
        !a && b
    }

    proof fn lemma_irreflexive(a: Self) {
    }

    proof fn lemma_transitive(a: Self, b: Self, c: Self) {
    }

    proof fn lemma_total(a: Self, b: Self) {
    }

    fn compare(&self, other: &Self) -> (c: KeyOrder) {
        if !*self && *other {
            KeyOrder::Less
        } else if *self == *other {
            KeyOrder::Equal
        } else {
            KeyOrder::Greater
        }
    }
}

/// Pairs are ordered by their first component, then by their second.
impl<A: BTreeKey, B: BTreeKey> BTreeKey for (A, B) {
    open spec fn view_lt(a: (A::V, B::V), b: (A::V, B::V)) -> bool {
        A::view_lt(a.0, b.0) || (a.0 == b.0 && B::view_lt(a.1, b.1))
    }

    proof fn lemma_irreflexive(a: (A::V, B::V)) {
        A::lemma_irreflexive(a.0);
        B::lemma_irreflexive(a.1);
    }

    proof fn lemma_transitive(a: (A::V, B::V), b: (A::V, B::V), c: (A::V, B::V)) {
        A::lemma_transitive(a.0, b.0, c.0);
        B::lemma_transitive(a.1, b.1, c.1);
    }

    proof fn lemma_total(a: (A::V, B::V), b: (A::V, B::V)) {
        A::lemma_total(a.0, b.0);
        B::lemma_total(a.1, b.1);
    }

    fn compare(&self, other: &Self) -> (c: KeyOrder) {
        proof {
            A::lemma_irreflexive(self.0@);
            A::lemma_transitive(self.0@, other.0@, self.0@);
            B::lemma_irreflexive(self.1@);
            B::lemma_transitive(self.1@, other.1@, self.1@);
        }
        match self.0.compare(&other.0) {
            KeyOrder::Less => KeyOrder::Less,
            KeyOrder::Greater => KeyOrder::Greater,
            KeyOrder::Equal => self.1.compare(&other.1),
        }
    }
}

/// The primitive keys are ordered as usual: integers by numeric value, characters by code
/// point, and `false` before `true`. So a tree of such keys lists them in increasing order,
/// and a range query keeps exactly the keys `k` with `low <= k <= high`.
pub proof fn lemma_primitive_key_orders()
    ensures
        forall|a: i8, b: i8| #[trigger] <i8 as BTreeKey>::view_lt(a, b) <==> a < b,
        forall|a: i16, b: i16| #[trigger] <i16 as BTreeKey>::view_lt(a, b) <==> a < b,
        forall|a: i32, b: i32| #[trigger] <i32 as BTreeKey>::view_lt(a, b) <==> a < b,
        forall|a: i64, b: i64| #[trigger] <i64 as BTreeKey>::view_lt(a, b) <==> a < b,
        forall|a: i128, b: i128| #[trigger] <i128 as BTreeKey>::view_lt(a, b) <==> a < b,
        forall|a: isize, b: isize| #[trigger] <isize as BTreeKey>::view_lt(a, b) <==> a < b,
        forall|a: u8, b: u8| #[trigger] <u8 as BTreeKey>::view_lt(a, b) <==> a < b,
        forall|a: u16, b: u16| #[trigger] <u16 as BTreeKey>::view_lt(a, b) <==> a < b,
        forall|a: u32, b: u32| #[trigger] <u32 as BTreeKey>::view_lt(a, b) <==> a < b,
        forall|a: u64, b: u64| #[trigger] <u64 as BTreeKey>::view_lt(a, b) <==> a < b,
        forall|a: u128, b: u128| #[trigger] <u128 as BTreeKey>::view_lt(a, b) <==> a < b,
        forall|a: usize, b: usize| #[trigger] <usize as BTreeKey>::view_lt(a, b) <==> a < b,
        forall|a: char, b: char| #[trigger] <char as BTreeKey>::view_lt(a, b) <==> a < b,
        forall|a: bool, b: bool| #[trigger] <bool as BTreeKey>::view_lt(a, b) <==> (a == false && b == true),
{
}

/// Pairs of keys are ordered lexicographically: by their first components, then by their
/// second.
pub proof fn lemma_pair_key_order<A: BTreeKey, B: BTreeKey>(a: (A::V, B::V), b: (A::V, B::V))
    ensures
        <(A, B) as BTreeKey>::view_lt(a, b) <==> (A::view_lt(a.0, b.0) || (a.0 == b.0 && B::view_lt(a.1, b.1))),
{
}

} // verus!

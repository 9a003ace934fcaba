//! Text keys: strings ordered character by character.
use vstd::prelude::*;
use crate::key::{BTreeKey, KeyOrder};

verus! {

/// `a` comes before `b` in lexicographic order of characters: at the first position where
/// they differ `a` has the smaller character, or `a` is a proper prefix of `b`.
pub open spec fn chars_lt(a: Seq<char>, b: Seq<char>) -> bool
    decreases a.len(),
{
    if b.len() == 0 {
        false
    } else if a.len() == 0 {
        true
    } else if a[0] != b[0] {
        (a[0] as int) < (b[0] as int)
    } else {
        chars_lt(a.drop_first(), b.drop_first())
    }
}

/// No string comes before itself.
pub proof fn lemma_chars_lt_irreflexive(a: Seq<char>)
    ensures
        !chars_lt(a, a),
    decreases a.len(),
{
    if a.len() > 0 {
        lemma_chars_lt_irreflexive(a.drop_first());
    }
}

/// Lexicographic order is transitive.
pub proof fn lemma_chars_lt_transitive(a: Seq<char>, b: Seq<char>, c: Seq<char>)
    ensures
        chars_lt(a, b) && chars_lt(b, c) ==> chars_lt(a, c),
    decreases a.len(),
{
    if a.len() > 0 && b.len() > 0 && c.len() > 0 {
        lemma_chars_lt_transitive(a.drop_first(), b.drop_first(), c.drop_first());
    }
}

/// Two strings are equal or ordered one way.
pub proof fn lemma_chars_lt_total(a: Seq<char>, b: Seq<char>)
    ensures
        chars_lt(a, b) || a == b || chars_lt(b, a),
    decreases a.len(),
{
    if a.len() == 0 {
        if b.len() == 0 {
            assert(a =~= b);
        }
    } else if b.len() > 0 && a[0] == b[0] {
        lemma_chars_lt_total(a.drop_first(), b.drop_first());
        if a.drop_first() == b.drop_first() {
            assert(a.drop_first().len() == b.drop_first().len());
            assert(a.len() == b.len());
            assert forall|i: int| 0 <= i < a.len() implies a[i] == b[i] by {
                if i > 0 {
                    assert(a[i] == a.drop_first()[i - 1]);
                    assert(b[i] == b.drop_first()[i - 1]);
                }
            }
            assert(a =~= b);
        }
    }
}

/// Two strings that agree on their first `k` characters are ordered as what follows.
pub proof fn lemma_chars_lt_common_prefix(a: Seq<char>, b: Seq<char>, k: int)
    requires
        0 <= k <= a.len(),
        k <= b.len(),
        a.take(k) == b.take(k),
    ensures
        chars_lt(a, b) == chars_lt(a.skip(k), b.skip(k)),
    decreases k,
{
    if k == 0 {
        assert(a.skip(0) =~= a);
        assert(b.skip(0) =~= b);
    } else {
        assert(a[0] == a.take(k)[0]);
        assert(b[0] == b.take(k)[0]);
        assert(a.drop_first().take(k - 1) =~= a.take(k).drop_first());
        assert(b.drop_first().take(k - 1) =~= b.take(k).drop_first());
        lemma_chars_lt_common_prefix(a.drop_first(), b.drop_first(), k - 1);
        assert(a.drop_first().skip(k - 1) =~= a.skip(k));
        assert(b.drop_first().skip(k - 1) =~= b.skip(k));
    }
}

/// Where `a` comes before `b`: the length of their common prefix, after which `a` ends or
/// has the smaller character.
proof fn lemma_chars_lt_witness(a: Seq<char>, b: Seq<char>) -> (k: int)
    requires
        chars_lt(a, b),
    ensures
        0 <= k <= a.len(),
        k < b.len(),
        a.take(k) == b.take(k),
        k == a.len() || (a[k] as int) < (b[k] as int),
    decreases a.len(),
{
    if a.len() == 0 || a[0] != b[0] {
        assert(a.take(0) =~= b.take(0));
        0
    } else {
        let k1 = lemma_chars_lt_witness(a.drop_first(), b.drop_first());
        assert(a.take(k1 + 1) =~= seq![a[0]] + a.drop_first().take(k1));
        assert(b.take(k1 + 1) =~= seq![b[0]] + b.drop_first().take(k1));
        k1 + 1
    }
}

/// Lexicographic order by its first difference: `a` comes before `b` exactly when, after a
/// common prefix of some length `k`, `a` ends while `b` goes on, or `a`'s next character
/// has the smaller code point.
pub proof fn lemma_chars_lt_first_difference(a: Seq<char>, b: Seq<char>)
    ensures
        chars_lt(a, b) <==> exists|k: int|
            #![trigger a.take(k), b.take(k)]
            0 <= k <= a.len() && k < b.len() && a.take(k) == b.take(k) && (k == a.len() || (a[k] as int)
                < (b[k] as int)),
{
    if chars_lt(a, b) {
        let k = lemma_chars_lt_witness(a, b);
        assert(a.take(k) == b.take(k));
    }
    assert forall|k: int|
        #![trigger a.take(k), b.take(k)]
        0 <= k <= a.len() && k < b.len() && a.take(k) == b.take(k) && (k == a.len() || (a[k] as int)
            < (b[k] as int)) implies chars_lt(a, b) by {
        lemma_chars_lt_common_prefix(a, b, k);
        assert(b.skip(k)[0] == b[k]);
        if k < a.len() {
            assert(a.skip(k)[0] == a[k]);
        }
    }
}

/// A string comes before another exactly when the other does not come before it and they
/// differ.
proof fn lemma_chars_lt_exclusive(a: Seq<char>, b: Seq<char>)
    ensures
        chars_lt(a, b) ==> a != b && !chars_lt(b, a),
{
    lemma_chars_lt_irreflexive(a);
    lemma_chars_lt_transitive(a, b, a);
}

/// Compares two strings character by character, as `Ord` on `str` orders them: the first
/// position where they differ decides, and a proper prefix comes first.
fn compare_str(a: &str, b: &str) -> (c: KeyOrder)
    ensures
        c == KeyOrder::Less <==> chars_lt(a@, b@),
        c == KeyOrder::Equal <==> a@ == b@,
        c == KeyOrder::Greater <==> chars_lt(b@, a@),
{
    proof {
        lemma_chars_lt_exclusive(a@, b@);
        lemma_chars_lt_exclusive(b@, a@);
    }
    let mut ia = a.chars();
    let mut ib = b.chars();
    let ghost mut k: int = 0;
    proof {
        assert(a@.skip(0) =~= a@);
        assert(b@.skip(0) =~= b@);
        assert(a@.take(0) =~= b@.take(0));
    }
    loop
        invariant
            0 <= k <= a@.len(),
            k <= b@.len(),
            vstd::std_specs::iter::IteratorSpec::remaining(&ia) == a@.skip(k),
            vstd::std_specs::iter::IteratorSpec::remaining(&ib) == b@.skip(k),
            a@.take(k) == b@.take(k),
            chars_lt(a@, b@) ==> a@ != b@ && !chars_lt(b@, a@),
            chars_lt(b@, a@) ==> a@ != b@ && !chars_lt(a@, b@),
        decreases a@.len() - k,
    {
        let ca = ia.next();
        let cb = ib.next();
        proof {
            lemma_chars_lt_common_prefix(a@, b@, k);
            lemma_chars_lt_common_prefix(b@, a@, k);
        }
        match ca {
            None => {
                match cb {
                    None => {
                        proof {
                            assert(a@ =~= a@.take(k));
                            assert(b@ =~= b@.take(k));
                        }
                        return KeyOrder::Equal;
                    },
                    Some(_) => {
                        return KeyOrder::Less;
                    },
                }
            },
            Some(x) => {
                match cb {
                    None => {
                        return KeyOrder::Greater;
                    },
                    Some(y) => {
                        proof {
                            assert(a@.skip(k)[0] == x);
                            assert(b@.skip(k)[0] == y);
                        }
                        if x < y {
                            return KeyOrder::Less;
                        } else if y < x {
                            return KeyOrder::Greater;
                        }
                        proof {
                            assert(a@[k] == x);
                            assert(b@[k] == y);
                            assert(a@.take(k + 1) =~= a@.take(k).push(x));
                            assert(b@.take(k + 1) =~= b@.take(k).push(y));
                            assert(a@.skip(k).drop_first() =~= a@.skip(k + 1));
                            assert(b@.skip(k).drop_first() =~= b@.skip(k + 1));
                            k = k + 1;
                        }
                    },
                }
            },
        }
    }
}

impl BTreeKey for String {
    open spec fn view_lt(a: Seq<char>, b: Seq<char>) -> bool {
        chars_lt(a, b)
    }

    proof fn lemma_irreflexive(a: Seq<char>) {
        lemma_chars_lt_irreflexive(a);
    }

    proof fn lemma_transitive(a: Seq<char>, b: Seq<char>, c: Seq<char>) {
        lemma_chars_lt_transitive(a, b, c);
    }

    proof fn lemma_total(a: Seq<char>, b: Seq<char>) {
        lemma_chars_lt_total(a, b);
    }

    fn compare(&self, other: &Self) -> (c: KeyOrder) {
        compare_str(self.as_str(), other.as_str())
    }
}

impl<'a> BTreeKey for &'a str {
    open spec fn view_lt(a: Seq<char>, b: Seq<char>) -> bool {
        chars_lt(a, b)
    }

    proof fn lemma_irreflexive(a: Seq<char>) {
        lemma_chars_lt_irreflexive(a);
    }

    proof fn lemma_transitive(a: Seq<char>, b: Seq<char>, c: Seq<char>) {
        lemma_chars_lt_transitive(a, b, c);
    }

    proof fn lemma_total(a: Seq<char>, b: Seq<char>) {
        lemma_chars_lt_total(a, b);
    }

    fn compare(&self, other: &Self) -> (c: KeyOrder) {
        compare_str(*self, *other)
    }
}

/// Strings and string slices are ordered lexicographically by their characters (see
/// `lemma_chars_lt_first_difference`).
pub proof fn lemma_text_key_order<'a>()
    ensures
        forall|a: Seq<char>, b: Seq<char>| #[trigger] <String as BTreeKey>::view_lt(a, b) <==> chars_lt(a, b),
        forall|a: Seq<char>, b: Seq<char>| #[trigger] <&'a str as BTreeKey>::view_lt(a, b) <==> chars_lt(a, b),
{
}

} // verus!

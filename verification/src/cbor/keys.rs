//! Canonical CBOR ordering of text map keys.

use vstd::prelude::*;

use super::value::{spec_key_lt, spec_lex_lt};

verus! {

/// Three-way result of comparing two keys in canonical order.
#[derive(Clone, Copy, Debug, PartialEq, Eq, Structural)]
pub enum KeyOrder {
    /// The first key sorts first.
    Less,
    /// The keys are the same bytes.
    Equal,
    /// The first key sorts last.
    Greater,
}

/// Lexicographic order is irreflexive.
pub proof fn lemma_lex_irreflexive(a: Seq<u8>)
    ensures
        !spec_lex_lt(a, a),
    decreases a.len(),
{
    if a.len() > 0 {
        lemma_lex_irreflexive(a.drop_first());
    }
}

/// Lexicographic order is asymmetric.
pub proof fn lemma_lex_asymmetric(a: Seq<u8>, b: Seq<u8>)
    requires
        spec_lex_lt(a, b),
    ensures
        !spec_lex_lt(b, a),
    decreases a.len(),
{
    if a.len() > 0 && b.len() > 0 && a[0] == b[0] {
        lemma_lex_asymmetric(a.drop_first(), b.drop_first());
    }
}

/// Lexicographic order is transitive.
pub proof fn lemma_lex_transitive(a: Seq<u8>, b: Seq<u8>, c: Seq<u8>)
    requires
        spec_lex_lt(a, b),
        spec_lex_lt(b, c),
    ensures
        spec_lex_lt(a, c),
    decreases a.len(),
{
    if a.len() > 0 && b.len() > 0 && c.len() > 0 && a[0] == b[0] && b[0] == c[0] {
        lemma_lex_transitive(a.drop_first(), b.drop_first(), c.drop_first());
    }
}

/// Lexicographic order is total on distinct sequences.
pub proof fn lemma_lex_total(a: Seq<u8>, b: Seq<u8>)
    ensures
        a == b || spec_lex_lt(a, b) || spec_lex_lt(b, a),
    decreases a.len(),
{
    if a.len() > 0 && b.len() > 0 && a[0] == b[0] {
        lemma_lex_total(a.drop_first(), b.drop_first());
        if a.drop_first() == b.drop_first() {
            assert(a =~= seq![a[0]] + a.drop_first());
            assert(b =~= seq![b[0]] + b.drop_first());
        }
    } else if a.len() == 0 && b.len() == 0 {
        assert(a =~= b);
    }
}

/// Canonical key order is a strict total order.
pub proof fn lemma_key_order(a: Seq<u8>, b: Seq<u8>, c: Seq<u8>)
    ensures
        !spec_key_lt(a, a),
        spec_key_lt(a, b) ==> !spec_key_lt(b, a),
        spec_key_lt(a, b) && spec_key_lt(b, c) ==> spec_key_lt(a, c),
        a == b || spec_key_lt(a, b) || spec_key_lt(b, a),
{
    lemma_lex_irreflexive(a);
    if spec_key_lt(a, b) && a.len() == b.len() {
        lemma_lex_asymmetric(a, b);
    }
    if spec_key_lt(a, b) && spec_key_lt(b, c) && a.len() == b.len() && b.len() == c.len() {
        lemma_lex_transitive(a, b, c);
    }
    lemma_lex_total(a, b);
}

/// Compares two keys' UTF-8 bytes in canonical order.
pub fn compare_keys(a: &[u8], b: &[u8]) -> (res: KeyOrder)
    ensures
        res == KeyOrder::Less <==> spec_key_lt(a@, b@),
        res == KeyOrder::Equal <==> a@ == b@,
        res == KeyOrder::Greater <==> spec_key_lt(b@, a@),
{
    proof {
        lemma_key_order(a@, b@, b@);
        lemma_key_order(b@, a@, a@);
    }
    if a.len() < b.len() {
        return KeyOrder::Less;
    }
    if a.len() > b.len() {
        return KeyOrder::Greater;
    }
    let mut i: usize = 0;
    while i < a.len()
        invariant
            a@.len() == b@.len(),
            i <= a@.len(),
            a@.subrange(0, i as int) == b@.subrange(0, i as int),
        decreases a@.len() - i,
    {
        if a[i] != b[i] {
            proof {
                lemma_lex_prefix(a@, b@, i as int);
            }
            if a[i] < b[i] {
                return KeyOrder::Less;
            } else {
                return KeyOrder::Greater;
            }
        }
        assert(a@.subrange(0, i + 1) =~= a@.subrange(0, i as int).push(a@[i as int]));
        assert(b@.subrange(0, i + 1) =~= b@.subrange(0, i as int).push(b@[i as int]));
        i = i + 1;
    }
    assert(a@ =~= a@.subrange(0, a@.len() as int));
    assert(b@ =~= b@.subrange(0, b@.len() as int));
    KeyOrder::Equal
}

/// After a common prefix of length `i`, the first differing byte decides.
proof fn lemma_lex_prefix(a: Seq<u8>, b: Seq<u8>, i: int)
    requires
        0 <= i < a.len(),
        i < b.len(),
        a.subrange(0, i) == b.subrange(0, i),
        a[i] != b[i],
    ensures
        spec_lex_lt(a, b) <==> a[i] < b[i],
        spec_lex_lt(b, a) <==> b[i] < a[i],
    decreases i,
{
    if i > 0 {
        assert(a[0] == a.subrange(0, i)[0]);
        assert(b[0] == b.subrange(0, i)[0]);
        assert(a.drop_first().subrange(0, i - 1) =~= a.subrange(0, i).drop_first());
        assert(b.drop_first().subrange(0, i - 1) =~= b.subrange(0, i).drop_first());
        lemma_lex_prefix(a.drop_first(), b.drop_first(), i - 1);
    }
}


/// Compares two byte strings in plain lexicographic order.
pub fn compare_lex(a: &[u8], b: &[u8]) -> (res: KeyOrder)
    ensures
        res == KeyOrder::Less <==> spec_lex_lt(a@, b@),
        res == KeyOrder::Equal <==> a@ == b@,
        res == KeyOrder::Greater <==> spec_lex_lt(b@, a@),
{
    proof {
        lemma_lex_irreflexive(a@);
        lemma_lex_total(a@, b@);
        if spec_lex_lt(a@, b@) {
            lemma_lex_asymmetric(a@, b@);
        }
    }
    let n = if a.len() < b.len() { a.len() } else { b.len() };
    let mut i: usize = 0;
    while i < n
        invariant
            n <= a@.len(),
            n <= b@.len(),
            n == a@.len() || n == b@.len(),
            i <= n,
            a@.subrange(0, i as int) == b@.subrange(0, i as int),
        decreases n - i,
    {
        if a[i] != b[i] {
            proof {
                lemma_lex_prefix(a@, b@, i as int);
            }
            if a[i] < b[i] {
                return KeyOrder::Less;
            } else {
                return KeyOrder::Greater;
            }
        }
        assert(a@.subrange(0, i + 1) =~= a@.subrange(0, i as int).push(a@[i as int]));
        assert(b@.subrange(0, i + 1) =~= b@.subrange(0, i as int).push(b@[i as int]));
        i = i + 1;
    }
    proof {
        lemma_lex_common_prefix(a@, b@, n as int);
    }
    if a.len() < b.len() {
        KeyOrder::Less
    } else if a.len() > b.len() {
        KeyOrder::Greater
    } else {
        assert(a@ =~= a@.subrange(0, n as int));
        assert(b@ =~= b@.subrange(0, n as int));
        KeyOrder::Equal
    }
}

/// When one string is a prefix of the other, the shorter sorts first.
proof fn lemma_lex_common_prefix(a: Seq<u8>, b: Seq<u8>, n: int)
    requires
        0 <= n <= a.len(),
        n <= b.len(),
        n == a.len() || n == b.len(),
        a.subrange(0, n) == b.subrange(0, n),
    ensures
        a.len() < b.len() ==> spec_lex_lt(a, b),
        b.len() < a.len() ==> spec_lex_lt(b, a),
    decreases n,
{
    if n > 0 {
        assert(a[0] == a.subrange(0, n)[0]);
        assert(b[0] == b.subrange(0, n)[0]);
        assert(a.drop_first().subrange(0, n - 1) =~= a.subrange(0, n).drop_first());
        assert(b.drop_first().subrange(0, n - 1) =~= b.subrange(0, n).drop_first());
        lemma_lex_common_prefix(a.drop_first(), b.drop_first(), n - 1);
    }
}

} // verus!

//! Sizes and heights of encoded values.

use vstd::prelude::*;

use super::value::{spec_be, spec_encode, spec_encode_entries, spec_encode_list, spec_encode_text, spec_head,
    spec_height, spec_height_entries, spec_height_list, spec_utf8, Value};
use crate::record_accounting::spec_header_size;

verus! {

/// `n` big-endian bytes are `n` bytes.
pub proof fn lemma_be_len(arg: nat, n: nat)
    ensures
        spec_be(arg, n).len() == n,
    decreases n,
{
    if n > 0 {
        lemma_be_len(arg / 256, (n - 1) as nat);
    }
}

/// A header is as long as its accounted size.
pub proof fn lemma_head_len(major: nat, arg: nat)
    ensures
        spec_head(major, arg).len() == spec_header_size(arg),
{
    lemma_be_len(arg, 1);
    lemma_be_len(arg, 2);
    lemma_be_len(arg, 4);
    lemma_be_len(arg, 8);
}

/// A text's encoding is its header and its UTF-8 bytes.
pub proof fn lemma_text_len(s: Seq<char>)
    ensures
        spec_encode_text(s).len() == spec_header_size(spec_utf8(s).len()) + spec_utf8(s).len(),
{
    lemma_head_len(3, spec_utf8(s).len());
}

/// Appending a value appends its encoding.
pub proof fn lemma_list_push(s: Seq<Value>, v: Value)
    ensures
        spec_encode_list(s.push(v)) == spec_encode_list(s) + spec_encode(v),
        spec_height_list(s.push(v)) == if spec_height_list(s) >= spec_height(v) { spec_height_list(s) } else { spec_height(v) },
{
    assert(s.push(v).subrange(0, s.len() as int) =~= s);
}

/// Appending an entry appends its key and value encodings.
pub proof fn lemma_entries_push(s: Seq<(String, Value)>, e: (String, Value))
    ensures
        spec_encode_entries(s.push(e)) == spec_encode_entries(s) + spec_encode_text(e.0@) + spec_encode(e.1),
{
    assert(s.push(e).subrange(0, s.len() as int) =~= s);
}

/// Removing an entry removes its key and value encodings.
pub proof fn lemma_entries_remove_len(t: Seq<(String, Value)>, j: int)
    requires
        0 <= j < t.len(),
    ensures
        spec_encode_entries(t).len() == spec_encode_entries(t.remove(j)).len()
            + spec_encode_text(t[j].0@).len() + spec_encode(t[j].1).len(),
    decreases t.len(),
{
    if j == t.len() - 1 {
        assert(t.remove(j) =~= t.subrange(0, t.len() - 1));
    } else {
        let init = t.subrange(0, t.len() - 1);
        lemma_entries_remove_len(init, j);
        let r = t.remove(j);
        assert(r.subrange(0, r.len() - 1) =~= init.remove(j));
        assert(r[r.len() - 1] == t[t.len() - 1]);
        assert(init[j] == t[j]);
    }
}

/// Entries with the same elements have encodings of the same length.
pub proof fn lemma_entries_perm_len(s: Seq<(String, Value)>, t: Seq<(String, Value)>)
    requires
        s.to_multiset() == t.to_multiset(),
    ensures
        spec_encode_entries(s).len() == spec_encode_entries(t).len(),
    decreases s.len(),
{
    s.to_multiset_ensures();
    t.to_multiset_ensures();
    if s.len() == 0 {
        assert(t.len() == 0);
    } else {
        let x = s[s.len() - 1];
        let init = s.subrange(0, s.len() - 1);
        assert(s =~= init.push(x));
        init.to_multiset_ensures();
        assert(s.to_multiset() =~= init.to_multiset().insert(x));
        assert(t.to_multiset().count(x) > 0);
        assert(t.contains(x));
        let j = choose|j: int| 0 <= j < t.len() && t[j] == x;
        vstd::seq_lib::to_multiset_remove(t, j);
        assert(init.to_multiset() =~= t.remove(j).to_multiset());
        lemma_entries_perm_len(init, t.remove(j));
        lemma_entries_remove_len(t, j);
    }
}

/// Every element within a height bound keeps the list within it.
pub proof fn lemma_height_list_bound(s: Seq<Value>, b: nat)
    requires
        forall|i: int| 0 <= i < s.len() ==> spec_height(#[trigger] s[i]) <= b,
    ensures
        spec_height_list(s) <= b,
    decreases s.len(),
{
    if s.len() > 0 {
        let init = s.subrange(0, s.len() - 1);
        assert forall|i: int| 0 <= i < init.len() implies spec_height(#[trigger] init[i]) <= b by {
            assert(init[i] == s[i]);
        }
        lemma_height_list_bound(init, b);
    }
}

/// Every entry value within a height bound keeps the entries within it.
pub proof fn lemma_height_entries_bound(s: Seq<(String, Value)>, b: nat)
    requires
        forall|i: int| 0 <= i < s.len() ==> spec_height((#[trigger] s[i]).1) <= b,
    ensures
        spec_height_entries(s) <= b,
    decreases s.len(),
{
    if s.len() > 0 {
        let init = s.subrange(0, s.len() - 1);
        assert forall|i: int| 0 <= i < init.len() implies spec_height((#[trigger] init[i]).1) <= b by {
            assert(init[i] == s[i]);
        }
        lemma_height_entries_bound(init, b);
    }
}

} // verus!

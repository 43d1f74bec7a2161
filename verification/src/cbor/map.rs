//! Construction and lookup of canonical text-keyed maps.

use vstd::prelude::*;
use vstd::multiset::Multiset;

use super::error::{Error, ErrorKind};
use super::keys::{compare_keys, lemma_key_order, KeyOrder};
use super::value::{spec_key_lt, spec_keys_sorted, spec_utf8, Value, ValueMap};

verus! {

/// No two entries share the same key.
pub open spec fn spec_keys_distinct(s: Seq<(String, Value)>) -> bool {
    forall|i: int, j: int| 0 <= i < j < s.len() ==> spec_utf8(#[trigger] s[i].0@) != spec_utf8(#[trigger] s[j].0@)
}

/// Every key of `a` sorts before every key of `b`.
pub open spec fn spec_all_before(a: Seq<(String, Value)>, b: Seq<(String, Value)>) -> bool {
    forall|i: int, j: int| 0 <= i < a.len() && 0 <= j < b.len() ==> spec_key_lt(
        spec_utf8(#[trigger] a[i].0@),
        spec_utf8(#[trigger] b[j].0@),
    )
}

/// The value of the first entry with key `k`, if any.
pub open spec fn spec_find(entries: Seq<(String, Value)>, k: Seq<char>) -> Option<Value>
    decreases entries.len(),
{
    if entries.len() == 0 {
        None
    } else if entries[0].0@ == k {
        Some(entries[0].1)
    } else {
        spec_find(entries.drop_first(), k)
    }
}

/// A key is found exactly when some entry has it; with distinct keys the
/// found value is that entry's.
pub proof fn lemma_find(entries: Seq<(String, Value)>, k: Seq<char>, j: int)
    requires
        0 <= j < entries.len(),
        entries[j].0@ == k,
        spec_views_distinct(entries),
    ensures
        spec_find(entries, k) == Some(entries[j].1),
    decreases entries.len(),
{
    if j > 0 {
        assert(entries[0].0@ != k);
        let rest = entries.drop_first();
        assert forall|a: int, b: int| 0 <= a < b < rest.len() implies (#[trigger] rest[a]).0@ != (#[trigger] rest[b]).0@ by {
            assert(rest[a] == entries[a + 1]);
            assert(rest[b] == entries[b + 1]);
        }
        lemma_find(rest, k, j - 1);
    }
}

/// A key no entry has is not found.
pub proof fn lemma_find_absent(entries: Seq<(String, Value)>, k: Seq<char>)
    requires
        forall|j: int| 0 <= j < entries.len() ==> (#[trigger] entries[j]).0@ != k,
    ensures
        spec_find(entries, k) is None,
    decreases entries.len(),
{
    if entries.len() > 0 {
        let rest = entries.drop_first();
        assert forall|j: int| 0 <= j < rest.len() implies (#[trigger] rest[j]).0@ != k by {
            assert(rest[j] == entries[j + 1]);
        }
        lemma_find_absent(rest, k);
    }
}

/// Entries whose keys are pairwise distinct.
pub open spec fn spec_views_distinct(entries: Seq<(String, Value)>) -> bool {
    forall|a: int, b: int| 0 <= a < b < entries.len() ==> (#[trigger] entries[a]).0@ != (#[trigger] entries[b]).0@
}

/// Canonically sorted keys are pairwise distinct.
pub proof fn lemma_sorted_views_distinct(entries: Seq<(String, Value)>)
    requires
        spec_keys_sorted(entries),
    ensures
        spec_views_distinct(entries),
{
    assert forall|a: int, b: int| 0 <= a < b < entries.len() implies (#[trigger] entries[a]).0@ != (#[trigger] entries[b]).0@ by {
        lemma_key_order(spec_utf8(entries[a].0@), spec_utf8(entries[b].0@), spec_utf8(entries[b].0@));
    }
}

/// Lookup is unchanged by reordering entries with distinct keys.
pub proof fn lemma_find_permutation(input: Seq<(String, Value)>, entries: Seq<(String, Value)>, k: Seq<char>)
    requires
        entries.to_multiset() == input.to_multiset(),
        spec_views_distinct(input),
        spec_views_distinct(entries),
    ensures
        spec_find(entries, k) == spec_find(input, k),
{
    input.to_multiset_ensures();
    entries.to_multiset_ensures();
    if exists|j: int| 0 <= j < input.len() && (#[trigger] input[j]).0@ == k {
        let j = choose|j: int| 0 <= j < input.len() && (#[trigger] input[j]).0@ == k;
        lemma_find(input, k, j);
        assert(input.contains(input[j]));
        assert(input.to_multiset().count(input[j]) > 0);
        assert(entries.contains(input[j]));
        let jj = choose|jj: int| 0 <= jj < entries.len() && entries[jj] == input[j];
        lemma_find(entries, k, jj);
    } else {
        lemma_find_absent(input, k);
        assert forall|jj: int| 0 <= jj < entries.len() implies (#[trigger] entries[jj]).0@ != k by {
            assert(entries.contains(entries[jj]));
            assert(entries.to_multiset().count(entries[jj]) > 0);
            assert(input.contains(entries[jj]));
        }
        lemma_find_absent(entries, k);
    }
}

impl ValueMap {
    /// The empty map.
    pub fn new() -> (res: ValueMap)
        ensures
            res.entries@.len() == 0,
    {
        ValueMap { entries: Vec::new() }
    }

    /// Builds a canonical map from entries in any order, rejecting repeated keys.
    pub fn try_from_entries(entries: Vec<(String, Value)>) -> (res: Result<ValueMap, Error>)
        ensures
            res is Ok <==> spec_keys_distinct(entries@),
            res matches Ok(m) ==> spec_keys_sorted(m.entries@)
                && m.entries@.to_multiset() == entries@.to_multiset(),
            res matches Err(e) ==> e == super::error::spec_plain_error(ErrorKind::DuplicateMapKey),
    {
        let ghost unsorted = entries@;
        let mut input = entries;
        let mut output: Vec<(String, Value)> = Vec::new();
        proof {
            output@.to_multiset_ensures();
            assert(output@.to_multiset() =~= Multiset::<(String, Value)>::empty());
        }
        while input.len() > 0
            invariant
                unsorted == entries@,
                spec_keys_sorted(output@),
                spec_all_before(output@, input@),
                output@.to_multiset().add(input@.to_multiset()) == unsorted.to_multiset(),
                spec_keys_distinct(unsorted) ==> spec_keys_distinct(input@),
                spec_keys_distinct(unsorted) ==> spec_keys_distinct(output@ + input@),
            decreases input@.len(),
        {
            // Find the strictly smallest remaining key.
            let mut min: usize = 0;
            let mut j: usize = 1;
            while j < input.len()
                invariant
                    unsorted == entries@,
                    0 <= min < j <= input@.len(),
                    spec_keys_distinct(unsorted) ==> spec_keys_distinct(input@),
                    forall|k: int| 0 <= k < j && k != min ==> spec_key_lt(
                        spec_utf8(input@[min as int].0@),
                        spec_utf8(#[trigger] input@[k].0@),
                    ),
                decreases input@.len() - j,
            {
                let order = compare_keys(input[min].0.as_str().as_bytes(), input[j].0.as_str().as_bytes());
                match order {
                    KeyOrder::Less => {},
                    KeyOrder::Greater => {
                        proof {
                            assert forall|k: int| 0 <= k < j + 1 && k != j implies spec_key_lt(
                                spec_utf8(input@[j as int].0@),
                                spec_utf8(#[trigger] input@[k].0@),
                            ) by {
                                if k != min {
                                    lemma_key_order(spec_utf8(input@[j as int].0@), spec_utf8(input@[min as int].0@), spec_utf8(input@[k].0@));
                                }
                            }
                        }
                        min = j;
                    },
                    KeyOrder::Equal => {
                        proof {
                            if spec_keys_distinct(unsorted) {
                                assert(spec_utf8(input@[min as int].0@) != spec_utf8(input@[j as int].0@));
                            }
                        }
                        return Err(Error::new(ErrorKind::DuplicateMapKey));
                    },
                }
                j = j + 1;
            }
            let ghost before_in = input@;
            let ghost before_out = output@;
            let entry = input.remove(min);
            output.push(entry);
            proof {
                vstd::seq_lib::to_multiset_remove(before_in, min as int);
                vstd::seq_lib::to_multiset_build(before_out, entry);
                before_in.to_multiset_ensures();
                assert(output@.to_multiset().add(input@.to_multiset()) =~= unsorted.to_multiset());
                assert forall|a: int, c: int| 0 <= a < c < output@.len() implies spec_key_lt(
                    spec_utf8(#[trigger] output@[a].0@),
                    spec_utf8(#[trigger] output@[c].0@),
                ) by {
                    if c == output@.len() - 1 {
                        assert(output@[c] == before_in[min as int]);
                        assert(output@[a] == before_out[a]);
                    } else {
                        assert(output@[a] == before_out[a]);
                        assert(output@[c] == before_out[c]);
                    }
                }
                assert forall|a: int, c: int| 0 <= a < output@.len() && 0 <= c < input@.len() implies spec_key_lt(
                    spec_utf8(#[trigger] output@[a].0@),
                    spec_utf8(#[trigger] input@[c].0@),
                ) by {
                    let k = if c < min { c } else { c + 1 };
                    assert(input@[c] == before_in[k]);
                    if a < before_out.len() {
                        assert(output@[a] == before_out[a]);
                    } else {
                        assert(output@[a] == before_in[min as int]);
                    }
                }
                assert(output@ + input@ =~= before_out + before_in.remove(min as int).insert(0, before_in[min as int]).subrange(0, 0) + seq![before_in[min as int]] + before_in.remove(min as int));
                if spec_keys_distinct(unsorted) {
                    assert forall|a: int, c: int| 0 <= a < c < input@.len() implies spec_utf8(#[trigger] input@[a].0@)
                        != spec_utf8(#[trigger] input@[c].0@) by {
                        let ka = if a < min { a } else { a + 1 };
                        let kc = if c < min { c } else { c + 1 };
                        assert(input@[a] == before_in[ka]);
                        assert(input@[c] == before_in[kc]);
                    }
                    assert forall|a: int, c: int| 0 <= a < c < (output@ + input@).len() implies spec_utf8(#[trigger] (output@ + input@)[a].0@)
                        != spec_utf8(#[trigger] (output@ + input@)[c].0@) by {
                        let s = output@ + input@;
                        if c < output@.len() {
                            lemma_key_order(spec_utf8(s[a].0@), spec_utf8(s[c].0@), spec_utf8(s[c].0@));
                        } else if a < output@.len() {
                            lemma_key_order(spec_utf8(s[a].0@), spec_utf8(s[c].0@), spec_utf8(s[c].0@));
                        } else {
                            assert(s[a] == input@[a - output@.len()]);
                            assert(s[c] == input@[c - output@.len()]);
                        }
                    }
                }
            }
        }
        proof {
            input@.to_multiset_ensures();
            assert(input@.to_multiset() =~= Multiset::<(String, Value)>::empty());
            assert(output@.to_multiset().add(input@.to_multiset()) =~= output@.to_multiset());
            assert(output@ + input@ =~= output@);
            if !spec_keys_distinct(unsorted) {
                // A sorted permutation has distinct keys, so the input had them too.
                lemma_sorted_distinct(output@);
                lemma_distinct_permutation(output@, unsorted);
            }
        }
        Ok(ValueMap { entries: output })
    }

    /// Number of entries.
    pub fn len(&self) -> (res: usize)
        ensures
            res == self.entries@.len(),
    {
        self.entries.len()
    }

    /// Whether the map has no entries.
    pub fn is_empty(&self) -> (res: bool)
        ensures
            res == (self.entries@.len() == 0),
    {
        self.entries.len() == 0
    }

    /// Entries in canonical key order.
    pub fn entries(&self) -> (res: &[(String, Value)])
        ensures
            res@ == self.entries@,
    {
        self.entries.as_slice()
    }

    /// Looks up the value stored under the exact key (the first such entry).
    pub fn get(&self, key: &str) -> (res: Option<&Value>)
        ensures
            res is Some <==> exists|i: int| 0 <= i < self.entries@.len() && #[trigger] self.entries@[i].0@ == key@,
            res matches Some(v) ==> exists|i: int| 0 <= i < self.entries@.len() && self.entries@[i].0@ == key@
                && #[trigger] self.entries@[i].1 == *v,
            res is None <==> spec_find(self.entries@, key@) is None,
            res matches Some(v) ==> spec_find(self.entries@, key@) == Some(*v),
    {
        let mut i: usize = 0;
        assert(self.entries@.skip(0) =~= self.entries@);
        while i < self.entries.len()
            invariant
                i <= self.entries@.len(),
                forall|k: int| 0 <= k < i ==> #[trigger] self.entries@[k].0@ != key@,
                spec_find(self.entries@, key@) == spec_find(self.entries@.skip(i as int), key@),
            decreases self.entries@.len() - i,
        {
            assert(self.entries@.skip(i as int).drop_first() =~= self.entries@.skip(i + 1));
            if crate::text::same_text(self.entries[i].0.as_str(), key) {
                return Some(&self.entries[i].1);
            }
            i = i + 1;
        }
        None
    }
}

pub proof fn lemma_sorted_distinct(s: Seq<(String, Value)>)
    requires
        spec_keys_sorted(s),
    ensures
        spec_keys_distinct(s),
{
    assert forall|i: int, j: int| 0 <= i < j < s.len() implies spec_utf8(#[trigger] s[i].0@) != spec_utf8(#[trigger] s[j].0@) by {
        lemma_key_order(spec_utf8(s[i].0@), spec_utf8(s[j].0@), spec_utf8(s[j].0@));
    }
}

pub proof fn lemma_distinct_permutation(s: Seq<(String, Value)>, t: Seq<(String, Value)>)
    requires
        spec_keys_distinct(s),
        s.to_multiset() == t.to_multiset(),
    ensures
        spec_keys_distinct(t),
    decreases t.len(),
{
    s.to_multiset_ensures();
    t.to_multiset_ensures();
    if t.len() > 0 {
        assert forall|i: int, j: int| 0 <= i < j < t.len() implies spec_utf8(#[trigger] t[i].0@) != spec_utf8(#[trigger] t[j].0@) by {
            lemma_two_occurrences(s, t, i, j);
        }
    }
}

proof fn lemma_two_occurrences(s: Seq<(String, Value)>, t: Seq<(String, Value)>, i: int, j: int)
    requires
        spec_keys_distinct(s),
        s.to_multiset() == t.to_multiset(),
        0 <= i < j < t.len(),
    ensures
        spec_utf8(t[i].0@) != spec_utf8(t[j].0@),
{
    if spec_utf8(t[i].0@) != spec_utf8(t[j].0@) {
        return;
    }
    s.to_multiset_ensures();
    t.to_multiset_ensures();
    let x = t[i];
    let y = t[j];
    let t1 = t.remove(j);
    vstd::seq_lib::to_multiset_remove(t, j);
    t1.to_multiset_ensures();
    assert(t1[i] == x);
    assert(t1.contains(x));
    assert(t.contains(y)) by {
        assert(t[j] == y);
    }
    assert(t.to_multiset().count(y) > 0);
    assert(s.contains(y));
    let k = choose|k: int| 0 <= k < s.len() && s[k] == y;
    let s1 = s.remove(k);
    vstd::seq_lib::to_multiset_remove(s, k);
    s1.to_multiset_ensures();
    assert(s1.to_multiset() == t1.to_multiset());
    assert(s1.to_multiset().count(x) > 0);
    assert(s1.contains(x));
    let l = choose|l: int| 0 <= l < s1.len() && s1[l] == x;
    let l0 = if l < k { l } else { l + 1 };
    assert(s[l0] == x);
    assert(l0 != k);
    if l0 < k {
        assert(spec_utf8(s[l0].0@) != spec_utf8(s[k].0@));
    } else {
        assert(spec_utf8(s[k].0@) != spec_utf8(s[l0].0@));
    }
}

} // verus!

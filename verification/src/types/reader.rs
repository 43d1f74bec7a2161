//! Reading type and port records: canonical ingress checks them exactly;
//! normalization sorts enums and flattens, sorts and deduplicates unions.

use vstd::prelude::*;
use vstd::string::*;

use super::{Port, PrimitiveType, TypeContext, ValueType, ValueTypeKind};
use super::model::{lemma_fields_model, lemma_ports_model, lemma_record_unique, lemma_run_bytes_bound, lemma_types_model,
    lemma_types_model_append, spec_fields_model, spec_model_record, spec_model_steps, spec_port_model, spec_ports_model,
    spec_run, spec_sized, spec_type_model, spec_types_model, PortModel, TypeError, TypeModel};
use super::reading::{lemma_key_index, spec_enum_order, spec_key_index, spec_member_encode, spec_members_encode,
    spec_parse_enum, spec_parse_fields, spec_parse_items, spec_parse_port, spec_parse_ports, spec_parse_type,
    spec_parse_union, spec_primitive_of, spec_sort_texts, spec_texts_distinct, spec_texts_sorted, spec_union_normal};
use crate::cbor::limits::Limits;
use crate::record_accounting::RecordAccounting;
use crate::cbor::value::{spec_lex_lt, spec_utf8, Value};
use crate::options::{sort_codes, spec_views};
use crate::text::same_text;

verus! {

/// Lexicographic order survives dropping a common prefix.
proof fn lemma_lex_skip(a: Seq<u8>, b: Seq<u8>, i: int)
    requires
        0 <= i <= a.len(),
        i <= b.len(),
        a.take(i) == b.take(i),
    ensures
        spec_lex_lt(a, b) == spec_lex_lt(a.skip(i), b.skip(i)),
    decreases i,
{
    if i > 0 {
        assert(a[0] == a.take(i)[0]);
        assert(b[0] == b.take(i)[0]);
        assert(a.drop_first().take(i - 1) =~= a.take(i).drop_first());
        assert(b.drop_first().take(i - 1) =~= b.take(i).drop_first());
        lemma_lex_skip(a.drop_first(), b.drop_first(), i - 1);
        assert(a.drop_first().skip(i - 1) =~= a.skip(i));
        assert(b.drop_first().skip(i - 1) =~= b.skip(i));
    } else {
        assert(a.skip(0) =~= a);
        assert(b.skip(0) =~= b);
    }
}

/// Strict lexicographic order of byte strings.
pub fn bytes_lt(a: &[u8], b: &[u8]) -> (res: bool)
    ensures
        res == spec_lex_lt(a@, b@),
{
    let mut i: usize = 0;
    while i < a.len() && i < b.len() && a[i] == b[i]
        invariant
            i <= a@.len(),
            i <= b@.len(),
            a@.take(i as int) == b@.take(i as int),
        decreases a@.len() - i,
    {
        assert(a@.take(i + 1) =~= a@.take(i as int).push(a@[i as int]));
        assert(b@.take(i + 1) =~= b@.take(i as int).push(b@[i as int]));
        i = i + 1;
    }
    proof {
        lemma_lex_skip(a@, b@, i as int);
        if i < a@.len() && i < b@.len() {
            assert(a@.skip(i as int)[0] == a@[i as int]);
            assert(b@.skip(i as int)[0] == b@[i as int]);
        }
    }
    if i == a.len() {
        i < b.len()
    } else if i == b.len() {
        false
    } else {
        a[i] < b[i]
    }
}

/// Strict UTF-8 order of texts.
fn text_lt(a: &str, b: &str) -> (res: bool)
    ensures
        res == spec_lex_lt(spec_utf8(a@), spec_utf8(b@)),
{
    bytes_lt(a.as_bytes(), b.as_bytes())
}

/// Texts strictly increasing in UTF-8 order with the same elements are equal.
pub proof fn lemma_texts_sorted_unique(s: Seq<Seq<char>>, t: Seq<Seq<char>>)
    requires
        spec_texts_sorted(s),
        spec_texts_sorted(t),
        forall|x: Seq<char>| s.contains(x) <==> t.contains(x),
    ensures
        s == t,
    decreases s.len() + t.len(),
{
    if s.len() == 0 {
        if t.len() > 0 {
            assert(t.contains(t[0]));
        }
        assert(s =~= t);
    } else if t.len() == 0 {
        assert(s.contains(s[0]));
    } else {
        assert(s.contains(s[0]));
        assert(t.contains(t[0]));
        let k = choose|k: int| 0 <= k < t.len() && t[k] == s[0];
        let m = choose|m: int| 0 <= m < s.len() && s[m] == t[0];
        if k > 0 && m > 0 {
            crate::cbor::keys::lemma_lex_transitive(spec_utf8(t[0]), spec_utf8(t[k]), spec_utf8(s[m]));
            crate::cbor::keys::lemma_lex_irreflexive(spec_utf8(t[0]));
        }
        if k > 0 && m == 0 {
            crate::cbor::keys::lemma_lex_irreflexive(spec_utf8(t[0]));
        }
        if k == 0 && m > 0 {
            crate::cbor::keys::lemma_lex_irreflexive(spec_utf8(s[0]));
        }
        assert(s[0] == t[0]);
        let s1 = s.drop_first();
        let t1 = t.drop_first();
        assert forall|x: Seq<char>| s1.contains(x) <==> t1.contains(x) by {
            if s1.contains(x) {
                let i = choose|i: int| 0 <= i < s1.len() && s1[i] == x;
                assert(s[i + 1] == x);
                crate::cbor::keys::lemma_lex_irreflexive(spec_utf8(x));
                assert(t.contains(x));
                let j = choose|j: int| 0 <= j < t.len() && t[j] == x;
                assert(j != 0);
                assert(t1[j - 1] == x);
            }
            if t1.contains(x) {
                let i = choose|i: int| 0 <= i < t1.len() && t1[i] == x;
                assert(t[i + 1] == x);
                crate::cbor::keys::lemma_lex_irreflexive(spec_utf8(x));
                assert(s.contains(x));
                let j = choose|j: int| 0 <= j < s.len() && s[j] == x;
                assert(j != 0);
                assert(s1[j - 1] == x);
            }
        }
        lemma_texts_sorted_unique(s1, t1);
        assert(s =~= seq![s[0]] + s1);
        assert(t =~= seq![t[0]] + t1);
    }
}

/// Reads enum members: a nonempty array of texts, sorted when normalizing,
/// then checked for repeats and order.
pub fn parse_enum(v: &Value, normalize: bool) -> (res: Result<Vec<String>, TypeError>)
    ensures
        match spec_parse_enum(*v, normalize) {
            Ok(m) => res matches Ok(ms) && TypeModel::Enum(spec_views(ms@)) == m,
            Err(e) => res == Err::<Vec<String>, TypeError>(e),
        },
{
    let a = match v {
        Value::Array(a) => a,
        _ => return Err(TypeError::InvalidShape("enum members")),
    };
    if a.len() == 0 {
        return Err(TypeError::EmptyEnum);
    }
    let mut members: Vec<String> = Vec::new();
    let mut i: usize = 0;
    while i < a.len()
        invariant
            *v == Value::Array(*a),
            i <= a@.len(),
            members@.len() == i,
            forall|j: int| 0 <= j < i ==> (#[trigger] a@[j]) is Text && members@[j]@ == a@[j]->Text_0@,
        decreases a@.len() - i,
    {
        match &a[i] {
            Value::Text(t) => {
                members.push(String::from_str(t.as_str()));
            },
            _ => {
                return Err(TypeError::InvalidShape("enum member"));
            },
        }
        i = i + 1;
    }
    let ghost ms = Seq::new(a@.len(), |j: int| a@[j]->Text_0@);
    assert(spec_views(members@) =~= ms);
    assert(!(exists|j: int| 0 <= j < a@.len() && !(#[trigger] a@[j] is Text)));
    assert(members@.len() > 0);
    if normalize {
        let mut x: usize = 0;
        while x < members.len()
            invariant
                spec_views(members@) == ms,
                ms == Seq::new(a@.len(), |j: int| a@[j]->Text_0@),
                *v == Value::Array(*a),
                a@.len() > 0,
                forall|j: int| 0 <= j < a@.len() ==> (#[trigger] a@[j]) is Text,
                normalize,
                x <= members@.len(),
                forall|p: int, q: int| 0 <= p < x && p < q < ms.len() ==> spec_utf8(#[trigger] ms[p]) != spec_utf8(#[trigger] ms[q]),
            decreases members@.len() - x,
        {
            let mut y: usize = x + 1;
            while y < members.len()
                invariant
                    spec_views(members@) == ms,
                    ms == Seq::new(a@.len(), |j: int| a@[j]->Text_0@),
                    *v == Value::Array(*a),
                    a@.len() > 0,
                    forall|j: int| 0 <= j < a@.len() ==> (#[trigger] a@[j]) is Text,
                    normalize,
                    x < members@.len(),
                    x < y <= members@.len(),
                    forall|p: int, q: int| 0 <= p < x && p < q < ms.len() ==> spec_utf8(#[trigger] ms[p]) != spec_utf8(#[trigger] ms[q]),
                    forall|q: int| x < q < y ==> spec_utf8(ms[x as int]) != spec_utf8(#[trigger] ms[q]),
                decreases members@.len() - y,
            {
                if same_text(members[x].as_str(), members[y].as_str()) {
                    assert(ms[x as int] == members@[x as int]@);
                    assert(ms[y as int] == members@[y as int]@);
                    assert(!spec_texts_distinct(ms));
                    return Err(TypeError::DuplicateEnumMember);
                }
                proof {
                    assert(ms[x as int] == members@[x as int]@);
                    assert(ms[y as int] == members@[y as int]@);
                    if spec_utf8(ms[x as int]) == spec_utf8(ms[y as int]) {
                        crate::types::model::lemma_utf8_injective(ms[x as int], ms[y as int]);
                    }
                }
                y = y + 1;
            }
            x = x + 1;
        }
        assert(spec_texts_distinct(ms));
        let sorted = sort_codes(members);
        proof {
            let r = spec_views(sorted@);
            assert(spec_texts_sorted(r)) by {
                assert forall|p: int, q: int| 0 <= p < q < r.len() implies spec_lex_lt(spec_utf8(#[trigger] r[p]), spec_utf8(#[trigger] r[q])) by {
                    assert(r[p] == sorted@[p]@);
                    assert(r[q] == sorted@[q]@);
                }
            }
            let c = spec_sort_texts(ms);
            assert(spec_texts_sorted(c) && (forall|y: Seq<char>| c.contains(y) <==> ms.contains(y)));
            lemma_texts_sorted_unique(c, r);
        }
        Ok(sorted)
    } else {
        let mut k: usize = 0;
        while k < members.len() - 1
            invariant
                spec_views(members@) == ms,
                ms == Seq::new(a@.len(), |j: int| a@[j]->Text_0@),
                *v == Value::Array(*a),
                a@.len() > 0,
                forall|j: int| 0 <= j < a@.len() ==> (#[trigger] a@[j]) is Text,
                !normalize,
                members@.len() > 0,
                k < members@.len(),
                spec_enum_order(ms, 0) == spec_enum_order(ms, k as int),
            decreases members@.len() - k,
        {
            assert(ms[k as int] == members@[k as int]@);
            assert(ms[k + 1] == members@[k + 1]@);
            if same_text(members[k].as_str(), members[k + 1].as_str()) {
                return Err(TypeError::DuplicateEnumMember);
            }
            proof {
                if spec_utf8(ms[k as int]) == spec_utf8(ms[k + 1]) {
                    crate::types::model::lemma_utf8_injective(ms[k as int], ms[k + 1]);
                }
            }
            if !text_lt(members[k].as_str(), members[k + 1].as_str()) {
                return Err(TypeError::NonCanonical("enum UTF-8 ordering"));
            }
            k = k + 1;
        }
        Ok(members)
    }
}

/// Distinct indices below `n` number at most `n`.
proof fn lemma_distinct_bound(s: Seq<int>, n: int)
    requires
        0 <= n,
        s.no_duplicates(),
        forall|i: int| 0 <= i < s.len() ==> 0 <= #[trigger] s[i] < n,
    ensures
        s.len() <= n,
    decreases n,
{
    if n <= 0 {
        if s.len() > 0 {
            assert(0 <= s[0] < n);
        }
    } else if s.contains(n - 1) {
        let k = choose|k: int| 0 <= k < s.len() && s[k] == n - 1;
        let t = s.remove(k);
        assert forall|i: int| 0 <= i < t.len() implies 0 <= #[trigger] t[i] < n - 1 by {
            if i < k {
                assert(t[i] == s[i]);
            } else {
                assert(t[i] == s[i + 1]);
            }
        }
        assert(t.no_duplicates()) by {
            assert forall|i: int, j: int| 0 <= i < t.len() && 0 <= j < t.len() && i != j implies t[i] != t[j] by {
                let si = if i < k { i } else { i + 1 };
                let sj = if j < k { j } else { j + 1 };
                assert(t[i] == s[si]);
                assert(t[j] == s[sj]);
            }
        }
        lemma_distinct_bound(t, n - 1);
    } else {
        assert forall|i: int| 0 <= i < s.len() implies 0 <= #[trigger] s[i] < n - 1 by {
            assert(s[i] != n - 1);
        }
        lemma_distinct_bound(s, n - 1);
    }
}

/// The views of byte-string keys.
pub open spec fn spec_key_views(keys: Seq<Vec<u8>>) -> Seq<Seq<u8>> {
    keys.map_values(|b: Vec<u8>| b@)
}

/// The indices as integers.
pub open spec fn spec_ints(ix: Seq<usize>) -> Seq<int> {
    ix.map_values(|k: usize| k as int)
}

/// The first index whose key is smallest among those above the last chosen
/// key (any key when nothing is chosen yet), or `keys.len()` when none is.
fn find_next(keys: &Vec<Vec<u8>>, ix: &Vec<usize>) -> (best: usize)
    requires
        forall|k: int| 0 <= k < ix@.len() ==> #[trigger] ix@[k] < keys@.len(),
    ensures
        best <= keys@.len(),
        best == keys@.len() ==> forall|q: int| 0 <= q < keys@.len()
            ==> !spec_above(spec_key_views(keys@), spec_ints(ix@), #[trigger] keys@[q]@),
        best < keys@.len() ==> spec_above(spec_key_views(keys@), spec_ints(ix@), keys@[best as int]@),
        best < keys@.len() ==> forall|q: int| 0 <= q < keys@.len() && spec_above(spec_key_views(keys@), spec_ints(ix@), #[trigger] keys@[q]@)
            ==> !spec_lex_lt(keys@[q]@, keys@[best as int]@),
        best < keys@.len() ==> forall|q: int| 0 <= q < best ==> (#[trigger] keys@[q])@ != keys@[best as int]@,
{
    let n = keys.len();
    let ghost bs = spec_key_views(keys@);
    let ghost ii = spec_ints(ix@);
    let mut best: usize = n;
    let mut j: usize = 0;
    while j < n
        invariant
            n == keys@.len(),
            bs == spec_key_views(keys@),
            ii == spec_ints(ix@),
            forall|k: int| 0 <= k < ix@.len() ==> #[trigger] ix@[k] < keys@.len(),
            j <= n,
            best == n || best < j,
            best == n ==> forall|q: int| 0 <= q < j ==> !spec_above(bs, ii, #[trigger] keys@[q]@),
            best < n ==> spec_above(bs, ii, keys@[best as int]@),
            best < n ==> forall|q: int| 0 <= q < j && spec_above(bs, ii, #[trigger] keys@[q]@) ==> !spec_lex_lt(keys@[q]@, keys@[best as int]@),
            best < n ==> forall|q: int| 0 <= q < best ==> (#[trigger] keys@[q])@ != keys@[best as int]@,
        decreases n - j,
    {
        let candidate = if ix.len() == 0 {
            true
        } else {
            bytes_lt(keys[ix[ix.len() - 1]].as_slice(), keys[j].as_slice())
        };
        proof {
            if ix@.len() > 0 {
                assert(ii[ii.len() - 1] == ix@[ix@.len() - 1] as int);
                assert(bs[ii[ii.len() - 1]] == keys@[ix@[ix@.len() - 1] as int]@);
            }
            assert(candidate == spec_above(bs, ii, keys@[j as int]@));
        }
        if candidate && (best == n || bytes_lt(keys[j].as_slice(), keys[best].as_slice())) {
            proof {
                assert forall|q: int| 0 <= q < j implies (#[trigger] keys@[q])@ != keys@[j as int]@ by {
                    if keys@[q]@ == keys@[j as int]@ && best < n {
                        crate::cbor::keys::lemma_lex_irreflexive(keys@[best as int]@);
                    }
                }
                assert forall|q: int| 0 <= q < j + 1 && spec_above(bs, ii, #[trigger] keys@[q]@)
                    implies !spec_lex_lt(keys@[q]@, keys@[j as int]@) by {
                    if q < j && best < n && spec_lex_lt(keys@[q]@, keys@[j as int]@) {
                        crate::cbor::keys::lemma_lex_transitive(keys@[q]@, keys@[j as int]@, keys@[best as int]@);
                    }
                    if q == j {
                        crate::cbor::keys::lemma_lex_irreflexive(keys@[q]@);
                    }
                }
            }
            best = j;
        }
        j = j + 1;
    }
    best
}

/// A key above the last chosen one, or any key when none is chosen yet.
pub open spec fn spec_above(bs: Seq<Seq<u8>>, ii: Seq<int>, key: Seq<u8>) -> bool {
    ii.len() == 0 || spec_lex_lt(bs[ii[ii.len() - 1]], key)
}

/// The chosen indices so far: in range, strictly increasing in key, each the
/// first of its key, and covering every key up to the last chosen one.
pub open spec fn spec_partial(ii: Seq<int>, bs: Seq<Seq<u8>>) -> bool {
    &&& forall|k: int| 0 <= k < ii.len() ==> 0 <= #[trigger] ii[k] < bs.len()
    &&& forall|a: int, b: int| 0 <= a < b < ii.len() ==> spec_lex_lt(bs[#[trigger] ii[a]], bs[#[trigger] ii[b]])
    &&& forall|k: int, j: int| #![trigger ii[k], bs[j]] 0 <= k < ii.len() && 0 <= j < ii[k] ==> bs[j] != bs[ii[k]]
    &&& forall|j: int| 0 <= j < bs.len() && !spec_above(bs, ii, #[trigger] bs[j]) ==> super::reading::spec_covered(ii, bs, bs[j])
}

/// When no key lies above the last chosen one, the choice is complete.
proof fn lemma_partial_done(ii: Seq<int>, bs: Seq<Seq<u8>>)
    requires
        spec_partial(ii, bs),
        forall|j: int| 0 <= j < bs.len() ==> !spec_above(bs, ii, #[trigger] bs[j]),
    ensures
        super::reading::spec_first_of_each(ii, bs),
{
    assert forall|j: int| 0 <= j < bs.len() implies super::reading::spec_covered(ii, bs, #[trigger] bs[j]) by {
        assert(!spec_above(bs, ii, bs[j]));
    }
}

/// Choosing the first smallest key above the last chosen one extends the choice.
proof fn lemma_partial_step(ii: Seq<int>, bs: Seq<Seq<u8>>, best: int)
    requires
        spec_partial(ii, bs),
        0 <= best < bs.len(),
        spec_above(bs, ii, bs[best]),
        forall|q: int| 0 <= q < bs.len() && spec_above(bs, ii, #[trigger] bs[q]) ==> !spec_lex_lt(bs[q], bs[best]),
        forall|q: int| 0 <= q < best ==> #[trigger] bs[q] != bs[best],
    ensures
        spec_partial(ii.push(best), bs),
        ii.len() < bs.len(),
{
    let m = ii.len();
    let s2 = ii.push(best);
    assert forall|k: int| 0 <= k < m implies spec_lex_lt(bs[#[trigger] ii[k]], bs[best]) by {
        if k < m - 1 {
            crate::cbor::keys::lemma_lex_transitive(bs[ii[k]], bs[ii[m - 1]], bs[best]);
        }
    }
    assert forall|a: int, b: int| 0 <= a < b < s2.len() implies spec_lex_lt(bs[#[trigger] s2[a]], bs[#[trigger] s2[b]]) by {
        if b < m {
            assert(s2[a] == ii[a]);
            assert(s2[b] == ii[b]);
        } else {
            assert(s2[a] == ii[a]);
        }
    }
    assert forall|j: int| 0 <= j < bs.len() && !spec_above(bs, s2, #[trigger] bs[j])
        implies super::reading::spec_covered(s2, bs, bs[j]) by {
        assert(s2[s2.len() - 1] == best);
        if !spec_above(bs, ii, bs[j]) {
            let k = choose|k: int| 0 <= k < ii.len() && bs[#[trigger] ii[k]] == bs[j];
            assert(s2[k] == ii[k]);
        } else {
            crate::cbor::keys::lemma_lex_total(bs[j], bs[best]);
            assert(s2[m as int] == best);
        }
    }
    assert forall|k: int, j: int| #![trigger s2[k], bs[j]] 0 <= k < s2.len() && 0 <= j < s2[k] implies bs[j] != bs[s2[k]] by {
        if k < m {
            assert(s2[k] == ii[k]);
        }
    }
    assert(s2.no_duplicates()) by {
        assert forall|a: int, b: int| 0 <= a < s2.len() && 0 <= b < s2.len() && a != b implies s2[a] != s2[b] by {
            let lo = if a < b { a } else { b };
            let hi = if a < b { b } else { a };
            if s2[lo] == s2[hi] {
                crate::cbor::keys::lemma_lex_irreflexive(bs[s2[lo]]);
            }
        }
    }
    assert forall|k: int| 0 <= k < s2.len() implies 0 <= #[trigger] s2[k] < bs.len() by {}
    lemma_distinct_bound(s2, bs.len() as int);
}

/// Chooses, in strictly increasing byte order, the first index of each
/// distinct key.
fn normal_indices(keys: &Vec<Vec<u8>>) -> (ix: Vec<usize>)
    ensures
        super::reading::spec_first_of_each(spec_ints(ix@), spec_key_views(keys@)),
{
    let ghost bs = spec_key_views(keys@);
    let n = keys.len();
    let mut ix: Vec<usize> = Vec::new();
    proof {
        assert(spec_ints(ix@) =~= Seq::<int>::empty());
    }
    loop
        invariant
            n == keys@.len(),
            bs == spec_key_views(keys@),
            bs.len() == n,
            spec_partial(spec_ints(ix@), bs),
        ensures
            super::reading::spec_first_of_each(spec_ints(ix@), bs),
        decreases n - ix@.len(),
    {
        proof {
            assert forall|k: int| 0 <= k < ix@.len() implies #[trigger] ix@[k] < keys@.len() by {
                assert(spec_ints(ix@)[k] == ix@[k] as int);
            }
        }
        let best = find_next(keys, &ix);
        proof {
            assert forall|q: int| 0 <= q < n implies #[trigger] bs[q] == keys@[q]@ by {}
        }
        if best == n {
            proof {
                lemma_partial_done(spec_ints(ix@), bs);
            }
            break;
        }
        proof {
            lemma_partial_step(spec_ints(ix@), bs, best as int);
            assert(spec_ints(ix@.push(best)) =~= spec_ints(ix@).push(best as int));
        }
        ix.push(best);
    }
    ix
}

/// Encodes one union member on its own: its record is built from depth zero
/// under the limits, then serialized.
pub fn member_bytes(t: &ValueType, ctx: TypeContext, limits: &Limits) -> (res: Result<Vec<u8>, TypeError>)
    requires
        limits.spec_valid(),
    ensures
        match spec_member_encode(spec_type_model(t.kind), ctx, *limits) {
            Ok(b) => res matches Ok(x) && x@ == b,
            Err(e) => res == Err::<Vec<u8>, TypeError>(e),
        },
{
    let ghost m = spec_type_model(t.kind);
    let mut acc = match RecordAccounting::new(limits) {
        Ok(a) => a,
        Err(e) => return Err(TypeError::Codec(e)),
    };
    let v = super::builder::build_type(&mut acc, ctx, &t.kind, 0)?;
    proof {
        lemma_run_bytes_bound(*limits, ctx, (0, 0, 0), spec_model_steps(m, 0));
        assert(crate::cbor::encode::spec_fits(v, *limits));
        let w = choose|w: Value| spec_model_record(w, m);
        assert(spec_model_record(v, m));
        lemma_record_unique(v, w, m);
    }
    match crate::cbor::encode::encode(&v, limits) {
        Ok(b) => Ok(b),
        Err(e) => Err(TypeError::Codec(e)),
    }
}

/// Byte strings strictly increasing in lexicographic order with the same
/// elements are equal.
proof fn lemma_bytes_sorted_unique(s: Seq<Seq<u8>>, t: Seq<Seq<u8>>)
    requires
        forall|i: int, j: int| 0 <= i < j < s.len() ==> spec_lex_lt(#[trigger] s[i], #[trigger] s[j]),
        forall|i: int, j: int| 0 <= i < j < t.len() ==> spec_lex_lt(#[trigger] t[i], #[trigger] t[j]),
        forall|x: Seq<u8>| s.contains(x) <==> t.contains(x),
    ensures
        s == t,
    decreases s.len() + t.len(),
{
    if s.len() == 0 {
        if t.len() > 0 {
            assert(t.contains(t[0]));
        }
        assert(s =~= t);
    } else if t.len() == 0 {
        assert(s.contains(s[0]));
    } else {
        assert(s.contains(s[0]));
        assert(t.contains(t[0]));
        let k = choose|k: int| 0 <= k < t.len() && t[k] == s[0];
        let m = choose|m: int| 0 <= m < s.len() && s[m] == t[0];
        if k > 0 && m > 0 {
            crate::cbor::keys::lemma_lex_transitive(t[0], t[k], s[m]);
            crate::cbor::keys::lemma_lex_irreflexive(t[0]);
        }
        if k > 0 && m == 0 {
            crate::cbor::keys::lemma_lex_irreflexive(t[0]);
        }
        if k == 0 && m > 0 {
            crate::cbor::keys::lemma_lex_irreflexive(s[0]);
        }
        assert(s[0] == t[0]);
        let s1 = s.drop_first();
        let t1 = t.drop_first();
        assert forall|x: Seq<u8>| s1.contains(x) <==> t1.contains(x) by {
            if s1.contains(x) {
                let i = choose|i: int| 0 <= i < s1.len() && s1[i] == x;
                assert(s[i + 1] == x);
                crate::cbor::keys::lemma_lex_irreflexive(x);
                assert(t.contains(x));
                let j = choose|j: int| 0 <= j < t.len() && t[j] == x;
                assert(j != 0);
                assert(t1[j - 1] == x);
            }
            if t1.contains(x) {
                let i = choose|i: int| 0 <= i < t1.len() && t1[i] == x;
                assert(t[i + 1] == x);
                crate::cbor::keys::lemma_lex_irreflexive(x);
                assert(s.contains(x));
                let j = choose|j: int| 0 <= j < s.len() && s[j] == x;
                assert(j != 0);
                assert(s1[j - 1] == x);
            }
        }
        lemma_bytes_sorted_unique(s1, t1);
        assert(s =~= seq![s[0]] + s1);
        assert(t =~= seq![t[0]] + t1);
    }
}

/// The choice of the first member of each distinct encoding is unique.
pub proof fn lemma_first_of_each_unique(a: Seq<int>, b: Seq<int>, bs: Seq<Seq<u8>>)
    requires
        super::reading::spec_first_of_each(a, bs),
        super::reading::spec_first_of_each(b, bs),
    ensures
        a == b,
{
    let ka = Seq::new(a.len(), |k: int| bs[a[k]]);
    let kb = Seq::new(b.len(), |k: int| bs[b[k]]);
    assert forall|x: Seq<u8>| ka.contains(x) <==> kb.contains(x) by {
        if ka.contains(x) {
            let k = choose|k: int| 0 <= k < ka.len() && ka[k] == x;
            assert(super::reading::spec_covered(b, bs, bs[a[k]]));
            let k2 = choose|k2: int| 0 <= k2 < b.len() && bs[#[trigger] b[k2]] == bs[a[k]];
            assert(kb[k2] == x);
        }
        if kb.contains(x) {
            let k = choose|k: int| 0 <= k < kb.len() && kb[k] == x;
            assert(super::reading::spec_covered(a, bs, bs[b[k]]));
            let k2 = choose|k2: int| 0 <= k2 < a.len() && bs[#[trigger] a[k2]] == bs[b[k]];
            assert(ka[k2] == x);
        }
    }
    assert forall|i: int, j: int| 0 <= i < j < ka.len() implies spec_lex_lt(#[trigger] ka[i], #[trigger] ka[j]) by {}
    assert forall|i: int, j: int| 0 <= i < j < kb.len() implies spec_lex_lt(#[trigger] kb[i], #[trigger] kb[j]) by {}
    lemma_bytes_sorted_unique(ka, kb);
    assert(a.len() == b.len()) by {
        assert(ka.len() == a.len());
        assert(kb.len() == b.len());
    }
    assert forall|k: int| 0 <= k < a.len() implies #[trigger] a[k] == b[k] by {
        assert(ka[k] == kb[k]);
        if a[k] < b[k] {
            assert(bs[a[k]] != bs[b[k]]);
        } else if b[k] < a[k] {
            assert(bs[b[k]] != bs[a[k]]);
        }
    }
    assert(a =~= b);
}

/// The members at the chosen indices, in the chosen order.
fn pick_members(members: Vec<ValueType>, ix: &Vec<usize>) -> (res: Vec<ValueType>)
    requires
        forall|k: int| 0 <= k < ix@.len() ==> #[trigger] ix@[k] < members@.len(),
        forall|a: int, b: int| 0 <= a < b < ix@.len() ==> #[trigger] ix@[a] != #[trigger] ix@[b],
    ensures
        res@.len() == ix@.len(),
        forall|k: int| 0 <= k < ix@.len() ==> #[trigger] res@[k] == members@[ix@[k] as int],
{
    let ghost orig = members@;
    let total = members.len();
    assert(orig.len() == total);
    let mut slots: Vec<Option<ValueType>> = Vec::new();
    let mut k: usize = 0;
    while k < ix.len()
        invariant
            k <= ix@.len(),
            slots@.len() == k,
            forall|q: int| 0 <= q < k ==> #[trigger] slots@[q] is None,
        decreases ix@.len() - k,
    {
        slots.push(None);
        k = k + 1;
    }
    let mut rest = members;
    let mut j: usize = 0;
    while rest.len() > 0
        invariant
            orig.len() <= usize::MAX,
            orig.len() == j + rest@.len(),
            rest@ == orig.skip(j as int),
            slots@.len() == ix@.len(),
            forall|q: int| 0 <= q < ix@.len() ==> #[trigger] ix@[q] < orig.len(),
            forall|a: int, b: int| 0 <= a < b < ix@.len() ==> #[trigger] ix@[a] != #[trigger] ix@[b],
            forall|q: int| 0 <= q < ix@.len() ==> #[trigger] slots@[q] == if ix@[q] < j { Some(orig[ix@[q] as int]) } else { None },
        decreases rest@.len(),
    {
        let x = rest.remove(0);
        assert(x == orig[j as int]);
        let mut q: usize = 0;
        let mut found: usize = ix.len();
        while q < ix.len()
            invariant
                q <= ix@.len(),
                found == ix@.len() || (found < q && ix@[found as int] == j),
                found == ix@.len() ==> forall|r: int| 0 <= r < q ==> #[trigger] ix@[r] != j,
            decreases ix@.len() - q,
        {
            if ix[q] == j {
                found = q;
            }
            q = q + 1;
        }
        if found < ix.len() {
            slots.set(found, Some(x));
        }
        proof {
            assert(rest@ =~= orig.skip(j + 1));
        }
        j = j + 1;
    }
    let mut out: Vec<ValueType> = Vec::new();
    let mut r: usize = 0;
    while r < ix.len()
        invariant
            j == orig.len(),
            r <= ix@.len(),
            slots@.len() == ix@.len() - r,
            forall|q: int| 0 <= q < ix@.len() ==> #[trigger] ix@[q] < orig.len(),
            forall|q: int| 0 <= q < slots@.len() ==> #[trigger] slots@[q] == Some(orig[ix@[q + r] as int]),
            out@.len() == r,
            forall|q: int| 0 <= q < r ==> #[trigger] out@[q] == orig[ix@[q] as int],
        decreases ix@.len() - r,
    {
        let o = slots.remove(0);
        match o {
            Some(x) => {
                out.push(x);
            },
            None => {
                assert(false);
            },
        }
        r = r + 1;
    }
    out
}

/// The position of the first entry with key `key`, if any.
fn find_key(entries: &Vec<(String, Value)>, key: &str) -> (res: Option<usize>)
    ensures
        match res {
            Some(i) => i as int == spec_key_index(entries@, key@, 0),
            None => spec_key_index(entries@, key@, 0) == -1,
        },
{
    let mut i: usize = 0;
    while i < entries.len()
        invariant
            i <= entries@.len(),
            spec_key_index(entries@, key@, 0) == spec_key_index(entries@, key@, i as int),
        decreases entries@.len() - i,
    {
        if same_text(entries[i].0.as_str(), key) {
            return Some(i);
        }
        i = i + 1;
    }
    None
}

/// Reads a primitive spelling.
fn parse_primitive(t: &str) -> (res: Result<ValueType, TypeError>)
    ensures
        match spec_primitive_of(t@) {
            Some(p) => res matches Ok(r) && spec_type_model(r.kind) == TypeModel::Primitive(p),
            None => res == Err::<ValueType, TypeError>(TypeError::UnknownPrimitive),
        },
{
    match PrimitiveType::parse(t) {
        Ok(p) => {
            proof {
                let q = choose|q: PrimitiveType| super::spec_primitive_name(q) == t@;
                super::lemma_primitive_names_distinct(p, q);
            }
            Ok(ValueType::primitive(p))
        },
        Err(e) => Err(e),
    }
}

/// Reads a type record: a primitive name, or a tagged constructor array.
#[verifier::rlimit(80)]
pub fn parse_type(v: &Value, ctx: TypeContext, limits: &Limits, normalize: bool) -> (res: Result<ValueType, TypeError>)
    requires
        limits.spec_valid(),
    ensures
        match spec_parse_type(*v, ctx, *limits, normalize) {
            Ok(m) => res matches Ok(t) && spec_type_model(t.kind) == m,
            Err(e) => res == Err::<ValueType, TypeError>(e),
        },
    decreases v, 1nat,
{
    let a = match v {
        Value::Text(name) => return parse_primitive(name.as_str()),
        Value::Array(a) => a,
        _ => return Err(TypeError::InvalidShape("type")),
    };
    if a.len() == 0 {
        return Err(TypeError::InvalidShape("type constructor"));
    }
    let tag = match &a[0] {
        Value::Text(t) => t.as_str(),
        _ => return Err(TypeError::InvalidShape("type constructor")),
    };
    let is_list = same_text(tag, "list");
    let is_map = same_text(tag, "map");
    let is_record = same_text(tag, "record");
    let is_union = same_text(tag, "union");
    let is_enum = same_text(tag, "enum");
    let is_schema = same_text(tag, "schema");
    let is_var = same_text(tag, "var");
    let is_function = same_text(tag, "function");
    let arity: usize = if is_list || is_map || is_record || is_union || is_enum || is_schema || is_var {
        2
    } else if is_function {
        3
    } else {
        return Err(TypeError::UnknownConstructor);
    };
    if a.len() != arity {
        return Err(TypeError::InvalidShape("constructor arity"));
    }
    if is_list || is_map {
        let child = parse_type(&a[1], ctx, limits, normalize)?;
        let kind = if is_list {
            ValueTypeKind::List(Box::new(child))
        } else {
            ValueTypeKind::StringMap(Box::new(child))
        };
        Ok(ValueType { kind })
    } else if is_record {
        match &a[1] {
            Value::Object(m) => {
                let fields = parse_fields(&m.entries, ctx, limits, normalize)?;
                Ok(ValueType { kind: ValueTypeKind::Record(fields) })
            },
            _ => Err(TypeError::InvalidShape("record fields")),
        }
    } else if is_enum {
        let members = parse_enum(&a[1], normalize)?;
        assert(spec_views(members@) =~= members@.map_values(|s: String| s@));
        Ok(ValueType { kind: ValueTypeKind::Enum(members) })
    } else if is_union {
        match &a[1] {
            Value::Array(items) => parse_union(items, ctx, limits, normalize),
            _ => Err(TypeError::InvalidShape("union members")),
        }
    } else if is_schema {
        match &a[1] {
            Value::Text(t) => match crate::digest::Digest::parse(t.as_str()) {
                Ok(d) => Ok(ValueType { kind: ValueTypeKind::Schema(d) }),
                Err(e) => Err(TypeError::Digest(e)),
            },
            _ => Err(TypeError::InvalidShape("schema digest")),
        }
    } else if is_var {
        if ctx == TypeContext::Value {
            return Err(TypeError::SignatureOnly("var"));
        }
        match &a[1] {
            Value::Text(t) => match crate::identifier::Identifier::parse(t.as_str()) {
                Ok(id) => {
                    proof {
                        crate::identifier::lemma_identifier_error_iff(spec_utf8(t@));
                    }
                    Ok(ValueType { kind: ValueTypeKind::Var(id) })
                },
                Err(e) => Err(TypeError::Identifier(e)),
            },
            _ => Err(TypeError::InvalidShape("type variable")),
        }
    } else {
        if ctx == TypeContext::Value {
            return Err(TypeError::SignatureOnly("function"));
        }
        match &a[1] {
            Value::Array(ps) => {
                let parameters = parse_ports(ps, ctx, limits, normalize)?;
                let result = parse_port(&a[2], ctx, limits, normalize)?;
                Ok(ValueType { kind: ValueTypeKind::Function { parameters, result: Box::new(result) } })
            },
            _ => Err(TypeError::InvalidShape("function parameters")),
        }
    }
}

/// Reads a port record: exactly `type` and `required`, the latter Boolean.
pub fn parse_port(v: &Value, ctx: TypeContext, limits: &Limits, normalize: bool) -> (res: Result<Port, TypeError>)
    requires
        limits.spec_valid(),
    ensures
        match spec_parse_port(*v, ctx, *limits, normalize) {
            Ok(p) => res matches Ok(r) && spec_port_model(r) == p,
            Err(e) => res == Err::<Port, TypeError>(e),
        },
    decreases v, 0nat,
{
    let m = match v {
        Value::Object(m) => m,
        _ => return Err(TypeError::InvalidShape("port record")),
    };
    let ghost e = m.entries@;
    let mut j: usize = 0;
    while j < m.entries.len()
        invariant
            e == m.entries@,
            *v == Value::Object(*m),
            j <= e.len(),
            forall|q: int| 0 <= q < j ==> (#[trigger] e[q]).0@ == "type"@ || e[q].0@ == "required"@,
        decreases e.len() - j,
    {
        let key = m.entries[j].0.as_str();
        if !same_text(key, "type") && !same_text(key, "required") {
            assert(e[j as int].0@ != "type"@ && e[j as int].0@ != "required"@);
            assert(!super::reading::spec_port_keys(e));
            return Err(TypeError::UnknownPortField);
        }
        j = j + 1;
    }
    let r = match find_key(&m.entries, "required") {
        Some(r) => r,
        None => return Err(TypeError::MissingPortField("required")),
    };
    let t = match find_key(&m.entries, "type") {
        Some(t) => t,
        None => return Err(TypeError::MissingPortField("type")),
    };
    proof {
        lemma_key_index(e, "required"@, 0);
        lemma_key_index(e, "type"@, 0);
    }
    match &m.entries[r].1 {
        Value::Bool(b) => {
            let ty = parse_type(&m.entries[t].1, ctx, limits, normalize)?;
            Ok(Port { value_type: ty, required: *b })
        },
        _ => Err(TypeError::InvalidShape("required boolean")),
    }
}

/// Reads record fields in map order: each name with its port.
fn parse_fields(entries: &Vec<(String, Value)>, ctx: TypeContext, limits: &Limits, normalize: bool)
    -> (res: Result<Vec<(String, Port)>, TypeError>)
    requires
        limits.spec_valid(),
    ensures
        match spec_parse_fields(entries@, ctx, *limits, normalize) {
            Ok(fs) => res matches Ok(r) && spec_fields_model(r@) == fs,
            Err(e) => res == Err::<Vec<(String, Port)>, TypeError>(e),
        },
    decreases entries, 0nat,
{
    let ghost e = entries@;
    let mut out: Vec<(String, Port)> = Vec::new();
    let mut i: usize = 0;
    proof {
        assert(e.skip(0) =~= e);
        assert(spec_fields_model(out@) + Seq::<(Seq<char>, PortModel)>::empty() =~= Seq::<(Seq<char>, PortModel)>::empty());
    }
    while i < entries.len()
        invariant
            e == entries@,
            limits.spec_valid(),
            i <= e.len(),
            spec_parse_fields(e, ctx, *limits, normalize) == match spec_parse_fields(e.skip(i as int), ctx, *limits, normalize) {
                Err(x) => Err(x),
                Ok(rest) => Ok(spec_fields_model(out@) + rest),
            },
        decreases e.len() - i,
    {
        proof {
            assert(e.skip(i as int)[0] == e[i as int]);
            assert(e.skip(i as int).drop_first() =~= e.skip(i + 1));
        }
        let port = parse_port(&entries[i].1, ctx, limits, normalize)?;
        let ghost before = out@;
        out.push((String::from_str(entries[i].0.as_str()), port));
        proof {
            assert(out@.drop_last() =~= before);
            let p = spec_port_model(port);
            match spec_parse_fields(e.skip(i + 1), ctx, *limits, normalize) {
                Ok(rest) => {
                    assert(spec_fields_model(out@) + rest =~= spec_fields_model(before) + (seq![(e[i as int].0@, p)] + rest));
                },
                Err(_) => {},
            }
        }
        i = i + 1;
    }
    proof {
        assert(e.skip(i as int) =~= Seq::<(String, Value)>::empty());
        assert(spec_fields_model(out@) + Seq::<(Seq<char>, PortModel)>::empty() =~= spec_fields_model(out@));
    }
    Ok(out)
}

/// Reads ports in order.
fn parse_ports(vs: &Vec<Value>, ctx: TypeContext, limits: &Limits, normalize: bool) -> (res: Result<Vec<Port>, TypeError>)
    requires
        limits.spec_valid(),
    ensures
        match spec_parse_ports(vs@, ctx, *limits, normalize) {
            Ok(ps) => res matches Ok(r) && spec_ports_model(r@) == ps,
            Err(e) => res == Err::<Vec<Port>, TypeError>(e),
        },
    decreases vs, 0nat,
{
    let ghost e = vs@;
    let mut out: Vec<Port> = Vec::new();
    let mut i: usize = 0;
    proof {
        assert(e.skip(0) =~= e);
        assert(spec_ports_model(out@) + Seq::<PortModel>::empty() =~= Seq::<PortModel>::empty());
    }
    while i < vs.len()
        invariant
            e == vs@,
            limits.spec_valid(),
            i <= e.len(),
            spec_parse_ports(e, ctx, *limits, normalize) == match spec_parse_ports(e.skip(i as int), ctx, *limits, normalize) {
                Err(x) => Err(x),
                Ok(rest) => Ok(spec_ports_model(out@) + rest),
            },
        decreases e.len() - i,
    {
        proof {
            assert(e.skip(i as int)[0] == e[i as int]);
            assert(e.skip(i as int).drop_first() =~= e.skip(i + 1));
        }
        let port = parse_port(&vs[i], ctx, limits, normalize)?;
        let ghost before = out@;
        out.push(port);
        proof {
            assert(out@.drop_last() =~= before);
            match spec_parse_ports(e.skip(i + 1), ctx, *limits, normalize) {
                Ok(rest) => {
                    assert(spec_ports_model(out@) + rest =~= spec_ports_model(before) + (seq![spec_port_model(port)] + rest));
                },
                Err(_) => {},
            }
        }
        i = i + 1;
    }
    proof {
        assert(e.skip(i as int) =~= Seq::<Value>::empty());
        assert(spec_ports_model(out@) + Seq::<PortModel>::empty() =~= spec_ports_model(out@));
    }
    Ok(out)
}

/// Reads union members: items in order, each member encoded, then sorted
/// and deduplicated by encoding when normalizing, or checked to be strictly
/// increasing otherwise; at least two must remain.
#[verifier::rlimit(60)]
fn parse_union(items: &Vec<Value>, ctx: TypeContext, limits: &Limits, normalize: bool) -> (res: Result<ValueType, TypeError>)
    requires
        limits.spec_valid(),
    ensures
        match spec_parse_union(items@, ctx, *limits, normalize) {
            Ok(m) => res matches Ok(t) && spec_type_model(t.kind) == m,
            Err(e) => res == Err::<ValueType, TypeError>(e),
        },
    decreases items, 1nat,
{
    let ghost vs = items@;
    let mut members: Vec<ValueType> = Vec::new();
    let mut i: usize = 0;
    proof {
        assert(vs.skip(0) =~= vs);
        assert(spec_types_model(members@) + Seq::<TypeModel>::empty() =~= Seq::<TypeModel>::empty());
    }
    while i < items.len()
        invariant
            vs == items@,
            limits.spec_valid(),
            i <= vs.len(),
            spec_parse_items(vs, ctx, *limits, normalize) == match spec_parse_items(vs.skip(i as int), ctx, *limits, normalize) {
                Err(x) => Err(x),
                Ok(rest) => Ok(spec_types_model(members@) + rest),
            },
        decreases vs.len() - i,
    {
        proof {
            assert(vs.skip(i as int)[0] == vs[i as int]);
            assert(vs.skip(i as int).drop_first() =~= vs.skip(i + 1));
        }
        let t = parse_type(&items[i], ctx, limits, normalize)?;
        let ghost before = members@;
        let ghost tm = spec_type_model(t.kind);
        match t.kind {
            ValueTypeKind::Union(children) => {
                if !normalize {
                    return Err(TypeError::NonCanonical("nested union"));
                }
                let ghost cs = children@;
                let mut ch = children;
                members.append(&mut ch);
                proof {
                    lemma_types_model_append(before, cs);
                    match spec_parse_items(vs.skip(i + 1), ctx, *limits, normalize) {
                        Ok(rest) => {
                            assert(spec_types_model(members@) + rest =~= spec_types_model(before) + (spec_types_model(cs) + rest));
                        },
                        Err(_) => {},
                    }
                }
            },
            other => {
                let member = ValueType { kind: other };
                members.push(member);
                proof {
                    assert(members@.drop_last() =~= before);
                    assert(spec_type_model(member.kind) == tm);
                    match spec_parse_items(vs.skip(i + 1), ctx, *limits, normalize) {
                        Ok(rest) => {
                            assert(spec_types_model(members@) + rest =~= spec_types_model(before) + (seq![tm] + rest));
                        },
                        Err(_) => {},
                    }
                }
            },
        }
        i = i + 1;
    }
    proof {
        assert(vs.skip(i as int) =~= Seq::<Value>::empty());
        assert(spec_types_model(members@) + Seq::<TypeModel>::empty() =~= spec_types_model(members@));
    }
    let ghost ms = spec_types_model(members@);
    proof {
        lemma_types_model(members@);
    }
    let mut keys: Vec<Vec<u8>> = Vec::new();
    let mut k: usize = 0;
    proof {
        assert(ms.skip(0) =~= ms);
        assert(spec_key_views(keys@) + Seq::<Seq<u8>>::empty() =~= Seq::<Seq<u8>>::empty());
    }
    while k < members.len()
        invariant
            limits.spec_valid(),
            vs == items@,
            spec_parse_items(vs, ctx, *limits, normalize) == Ok::<Seq<TypeModel>, TypeError>(ms),
            ms == spec_types_model(members@),
            ms.len() == members@.len(),
            forall|q: int| 0 <= q < members@.len() ==> #[trigger] ms[q] == spec_type_model(members@[q].kind),
            k <= ms.len(),
            keys@.len() == k,
            spec_members_encode(ms, ctx, *limits) == match spec_members_encode(ms.skip(k as int), ctx, *limits) {
                Err(x) => Err(x),
                Ok(rest) => Ok(spec_key_views(keys@) + rest),
            },
        decreases ms.len() - k,
    {
        proof {
            assert(ms.skip(k as int)[0] == ms[k as int]);
            assert(ms.skip(k as int).drop_first() =~= ms.skip(k + 1));
        }
        let b = member_bytes(&members[k], ctx, limits)?;
        let ghost before = keys@;
        keys.push(b);
        proof {
            assert(spec_key_views(keys@) =~= spec_key_views(before).push(b@));
            match spec_members_encode(ms.skip(k + 1), ctx, *limits) {
                Ok(rest) => {
                    assert(spec_key_views(keys@) + rest =~= spec_key_views(before) + (seq![b@] + rest));
                },
                Err(_) => {},
            }
        }
        k = k + 1;
    }
    proof {
        assert(ms.skip(k as int) =~= Seq::<TypeModel>::empty());
        assert(spec_key_views(keys@) + Seq::<Seq<u8>>::empty() =~= spec_key_views(keys@));
    }
    let ghost bs = spec_key_views(keys@);
    if normalize {
        let ix = normal_indices(&keys);
        proof {
            let ii = spec_ints(ix@);
            assert forall|q: int| 0 <= q < ix@.len() implies #[trigger] ix@[q] < members@.len() by {
                assert(ii[q] == ix@[q] as int);
            }
            assert forall|x: int, y: int| 0 <= x < y < ix@.len() implies #[trigger] ix@[x] != #[trigger] ix@[y] by {
                assert(ii[x] == ix@[x] as int);
                assert(ii[y] == ix@[y] as int);
                if ix@[x] == ix@[y] {
                    crate::cbor::keys::lemma_lex_irreflexive(bs[ii[x]]);
                }
            }
        }
        let picked = pick_members(members, &ix);
        proof {
            let ii = spec_ints(ix@);
            let chosen = choose|c: Seq<int>| super::reading::spec_first_of_each(c, bs);
            lemma_first_of_each_unique(chosen, ii, bs);
            lemma_types_model(picked@);
            assert(spec_types_model(picked@) =~= spec_union_normal(ms, bs)) by {
                assert forall|q: int| 0 <= q < picked@.len() implies spec_types_model(picked@)[q] == spec_union_normal(ms, bs)[q] by {
                    assert(ii[q] == ix@[q] as int);
                }
            }
        }
        if picked.len() < 2 {
            return Err(TypeError::UnionCardinality);
        }
        Ok(ValueType { kind: ValueTypeKind::Union(picked) })
    } else {
        let mut q: usize = 1;
        while q < keys.len()
            invariant
                vs == items@,
                !normalize,
                spec_parse_items(vs, ctx, *limits, normalize) == Ok::<Seq<TypeModel>, TypeError>(ms),
                spec_members_encode(ms, ctx, *limits) == Ok::<Seq<Seq<u8>>, TypeError>(bs),
                bs == spec_key_views(keys@),
                1 <= q,
                q <= keys@.len() || keys@.len() == 0,
                forall|r: int| 0 <= r < q - 1 && r < bs.len() - 1 ==> spec_lex_lt(#[trigger] bs[r], bs[r + 1]),
            decreases keys@.len() - q,
        {
            if !bytes_lt(keys[q - 1].as_slice(), keys[q].as_slice()) {
                proof {
                    assert(bs[q - 1] == keys@[q - 1]@);
                    assert(bs[q as int] == keys@[q as int]@);
                    assert(!super::reading::spec_bytes_increase(bs));
                }
                return Err(TypeError::NonCanonical("union encoded-byte ordering/uniqueness"));
            }
            proof {
                assert(bs[q - 1] == keys@[q - 1]@);
                assert(bs[q as int] == keys@[q as int]@);
            }
            q = q + 1;
        }
        proof {
            assert(super::reading::spec_bytes_increase(bs));
        }
        if members.len() < 2 {
            return Err(TypeError::UnionCardinality);
        }
        Ok(ValueType { kind: ValueTypeKind::Union(members) })
    }
}

} // verus!

use vstd::prelude::*;

use vstd::string::*;

use super::error::{CanonicalityReason, Error, ErrorKind, LimitKind};
use super::float::{lemma_widen16_inverse, lemma_widen32_inverse, spec_widen16, spec_widen32, widen16, widen32};
use super::header::{append_bytes, push_float};
use super::keys::{compare_keys, lemma_key_order, KeyOrder};
use super::limits::Limits;
use super::value::{
    spec_be, spec_be_value, spec_encode, spec_f16_bits, spec_f16_exact, spec_f32_bits, spec_f32_exact,
    spec_float_bytes, spec_float_wf, spec_encode_entries, spec_encode_list, spec_encode_text,
    spec_head, spec_height, spec_height_entries, spec_height_list, spec_int_arg, spec_key_lt,
    spec_keys_sorted, spec_same, spec_same_entries, spec_same_list, spec_utf8, spec_wf,
    spec_wf_entries, spec_wf_list, FiniteFloat, Value, ValueMap,
};
use crate::text::utf8_str;

verus! {

/// `256^n`.
pub open spec fn spec_pow256(n: nat) -> nat
    decreases n,
{
    if n == 0 { 1 } else { 256 * spec_pow256((n - 1) as nat) }
}

proof fn lemma_pow256_monotone(i: nat, j: nat)
    requires
        i <= j,
    ensures
        spec_pow256(i) <= spec_pow256(j),
    decreases j,
{
    if i < j {
        lemma_pow256_monotone(i, (j - 1) as nat);
    }
}

proof fn lemma_pow256_values()
    ensures
        spec_pow256(7) == 72057594037927936,
        spec_pow256(1) == 256,
        spec_pow256(2) == 65536,
        spec_pow256(4) == 4294967296,
        spec_pow256(8) == 18446744073709551616,
{
    reveal_with_fuel(spec_pow256, 9);
}

/// Big-endian bytes of a value read back give the bytes.
pub proof fn lemma_be_of_value(s: Seq<u8>)
    ensures
        spec_be(spec_be_value(s), s.len()) == s,
    decreases s.len(),
{
    if s.len() > 0 {
        let init = s.subrange(0, s.len() - 1);
        let v = spec_be_value(init);
        let last = s[s.len() - 1] as nat;
        lemma_be_of_value(init);
        assert((v * 256 + last) / 256 == v && (v * 256 + last) % 256 == last) by (nonlinear_arith)
            requires last < 256;
        assert(s =~= init + seq![s[s.len() - 1]]);
    }
}

/// Bytes written for a value below `256^n` read back as that value.
pub proof fn lemma_value_of_be(a: nat, n: nat)
    requires
        a < spec_pow256(n),
    ensures
        spec_be(a, n).len() == n,
        spec_be_value(spec_be(a, n)) == a,
    decreases n,
{
    if n == 0 {
    } else {
        let q = a / 256;
        let r = a % 256;
        assert(a == q * 256 + r && 0 <= r < 256) by (nonlinear_arith)
            requires q == a / 256, r == a % 256;
        assert(q < spec_pow256((n - 1) as nat)) by (nonlinear_arith)
            requires a < 256 * spec_pow256((n - 1) as nat), q == a / 256;
        lemma_value_of_be(q, (n - 1) as nat);
        let s = spec_be(a, n);
        assert(s.subrange(0, s.len() - 1) =~= spec_be(q, (n - 1) as nat));
    }
}

/// A big-endian value of `n` bytes is below `256^n`.
pub proof fn lemma_be_value_bound(s: Seq<u8>)
    ensures
        spec_be_value(s) < spec_pow256(s.len()),
    decreases s.len(),
{
    if s.len() > 0 {
        let init = s.subrange(0, s.len() - 1);
        lemma_be_value_bound(init);
        let v = spec_be_value(init);
        let p = spec_pow256(init.len());
        let last = s[s.len() - 1] as nat;
        assert(v * 256 + last < 256 * p) by (nonlinear_arith)
            requires v < p, last < 256;
    }
}

/// Reads `width` big-endian bytes at `start`.
fn read_be(b: &[u8], start: usize, width: usize) -> (res: u64)
    requires
        width <= 8,
        start + width <= b@.len(),
    ensures
        res as nat == spec_be_value(b@.subrange(start as int, start + width)),
{
    let mut acc: u64 = 0;
    let mut i: usize = 0;
    let len = b.len();
    while i < width
        invariant
            len == b@.len(),
            i <= width <= 8,
            start + width <= b@.len(),
            acc as nat == spec_be_value(b@.subrange(start as int, start + i)),
        decreases width - i,
    {
        proof {
            let s = b@.subrange(start as int, start + i);
            lemma_be_value_bound(s);
            lemma_pow256_values();
            assert(s.len() == i);
            lemma_pow256_monotone(s.len(), 7);
            assert(acc < 72057594037927936);
            assert(acc * 256 + 255 <= u64::MAX) by (nonlinear_arith)
                requires acc < 72057594037927936;
            assert(b@.subrange(start as int, start + i + 1).subrange(0, i as int) =~= s);
        }
        let byte = b[start + i] as u64;
        acc = acc * 256 + byte;
        i = i + 1;
    }
    acc
}

/// The header at `pos` is the shortest header of its major type for `a`.
pub open spec fn spec_head_at(b: Seq<u8>, pos: int, major: nat, a: nat) -> bool {
    pos + spec_head(major, a).len() <= b.len() && b.subrange(pos, pos + spec_head(major, a).len())
        == spec_head(major, a)
}

proof fn lemma_head_shape(major: nat, a: nat)
    requires
        major < 8,
        a < 18446744073709551616,
    ensures
        spec_head(major, a)[0] / 32 == major,
        a < 24 ==> spec_head(major, a).len() == 1 && spec_head(major, a)[0] % 32 == a,
        24 <= a < 256 ==> spec_head(major, a).len() == 2 && spec_head(major, a)[0] % 32 == 24,
        256 <= a < 65536 ==> spec_head(major, a).len() == 3 && spec_head(major, a)[0] % 32 == 25,
        65536 <= a < 4294967296 ==> spec_head(major, a).len() == 5 && spec_head(major, a)[0] % 32 == 26,
        4294967296 <= a ==> spec_head(major, a).len() == 9 && spec_head(major, a)[0] % 32 == 27,
        spec_head(major, a).subrange(1, spec_head(major, a).len() as int) == spec_be(a, (spec_head(major, a).len() - 1) as nat),
{
    lemma_pow256_values();
    let h = spec_head(major, a);
    if a < 24 {
        assert(h.subrange(1, 1) =~= spec_be(a, 0));
    } else if a < 256 {
        lemma_value_of_be(a, 1);
        assert(h.subrange(1, h.len() as int) =~= spec_be(a, 1));
    } else if a < 65536 {
        lemma_value_of_be(a, 2);
        assert(h.subrange(1, h.len() as int) =~= spec_be(a, 2));
    } else if a < 4294967296 {
        lemma_value_of_be(a, 4);
        assert(h.subrange(1, h.len() as int) =~= spec_be(a, 4));
    } else {
        lemma_value_of_be(a, 8);
        assert(h.subrange(1, h.len() as int) =~= spec_be(a, 8));
    }
}

/// Reads the definite-length header at `pos` (any major type), insisting on
/// the shortest argument width.
pub fn read_head(b: &[u8], pos: usize) -> (res: Result<(u64, usize), Error>)
    requires
        pos < b@.len(),
    ensures
        res matches Ok((arg, next)) ==> pos < next <= b@.len() && b@.subrange(pos as int, next as int)
            == spec_head((b@[pos as int] / 32) as nat, arg as nat),
        forall|a: nat| a < 18446744073709551616 && #[trigger] spec_head_at(b@, pos as int, (b@[pos as int] / 32) as nat, a)
            ==> res == Ok::<(u64, usize), Error>((a as u64, (pos + spec_head((b@[pos as int] / 32) as nat, a).len()) as usize)),
        res matches Err(e) ==> e.offset_spec() == Some(pos),
{
    let first = b[pos];
    let major = first / 32;
    let info = first % 32;
    proof {
        lemma_pow256_values();
    }
    if info < 24 {
        let res = Ok((info as u64, pos + 1));
        proof {
            assert(b@.subrange(pos as int, pos + 1) =~= spec_head(major as nat, info as nat));
            assert forall|a: nat| a < 18446744073709551616 && #[trigger] spec_head_at(b@, pos as int, major as nat, a)
                implies res == Ok::<(u64, usize), Error>((a as u64, (pos + spec_head(major as nat, a).len()) as usize)) by {
                lemma_head_shape(major as nat, a);
                assert(b@[pos as int] == spec_head(major as nat, a)[0]);
            }
        }
        return res;
    }
    let width: usize = if info == 24 {
        1
    } else if info == 25 {
        2
    } else if info == 26 {
        4
    } else if info == 27 {
        8
    } else if info == 31 && 2 <= major && major <= 5 {
        let res = Err(Error::noncanonical(CanonicalityReason::IndefiniteLength).at(pos));
        proof {
            assert forall|a: nat| a < 18446744073709551616 && #[trigger] spec_head_at(b@, pos as int, major as nat, a)
                implies res == Ok::<(u64, usize), Error>((a as u64, (pos + spec_head(major as nat, a).len()) as usize)) by {
                lemma_head_shape(major as nat, a);
                assert(b@[pos as int] == spec_head(major as nat, a)[0]);
            }
        }
        return res;
    } else {
        let res = Err(Error::new(ErrorKind::UnsupportedType).at(pos));
        proof {
            assert forall|a: nat| a < 18446744073709551616 && #[trigger] spec_head_at(b@, pos as int, major as nat, a)
                implies res == Ok::<(u64, usize), Error>((a as u64, (pos + spec_head(major as nat, a).len()) as usize)) by {
                lemma_head_shape(major as nat, a);
                assert(b@[pos as int] == spec_head(major as nat, a)[0]);
            }
        }
        return res;
    };
    if b.len() - (pos + 1) < width {
        let res = Err(Error::new(ErrorKind::UnexpectedEnd).at(pos));
        proof {
            assert forall|a: nat| a < 18446744073709551616 && #[trigger] spec_head_at(b@, pos as int, major as nat, a)
                implies res == Ok::<(u64, usize), Error>((a as u64, (pos + spec_head(major as nat, a).len()) as usize)) by {
                lemma_head_shape(major as nat, a);
                assert(b@[pos as int] == spec_head(major as nat, a)[0]);
            }
        }
        return res;
    }
    let arg = read_be(b, pos + 1, width);
    let minimum: u64 = if width == 1 {
        24
    } else if width == 2 {
        256
    } else if width == 4 {
        65536
    } else {
        4294967296
    };
    let ghost body = b@.subrange(pos + 1, pos + 1 + width);
    proof {
        lemma_be_of_value(body);
        lemma_be_value_bound(body);
    }
    if arg < minimum {
        let res = Err(Error::noncanonical(CanonicalityReason::NonminimalHeader).at(pos));
        proof {
            assert forall|a: nat| a < 18446744073709551616 && #[trigger] spec_head_at(b@, pos as int, major as nat, a)
                implies res == Ok::<(u64, usize), Error>((a as u64, (pos + spec_head(major as nat, a).len()) as usize)) by {
                lemma_head_shape(major as nat, a);
                let h = spec_head(major as nat, a);
                assert(b@[pos as int] == h[0]);
                assert(b@.subrange(pos as int, pos + h.len()).subrange(1, h.len() as int) =~= body);
                lemma_value_of_be(a, width as nat);
            }
        }
        return res;
    }
    let next = pos + 1 + width;
    let res = Ok((arg, next));
    proof {
        let h = spec_head(major as nat, arg as nat);
        lemma_head_shape(major as nat, arg as nat);
        assert(b@.subrange(pos as int, next as int) =~= seq![first] + body);
        assert(h =~= seq![h[0]] + h.subrange(1, h.len() as int));
        assert forall|a: nat| a < 18446744073709551616 && #[trigger] spec_head_at(b@, pos as int, major as nat, a)
            implies res == Ok::<(u64, usize), Error>((a as u64, (pos + spec_head(major as nat, a).len()) as usize)) by {
            lemma_head_shape(major as nat, a);
            let ha = spec_head(major as nat, a);
            assert(b@[pos as int] == ha[0]);
            assert(b@.subrange(pos as int, pos + ha.len()).subrange(1, ha.len() as int) =~= body);
            lemma_value_of_be(a, width as nat);
        }
    }
    res
}


/// `v` is encoded canonically at `pos`, reaching at most `max_depth` from `depth`.
pub open spec fn spec_canonical_at(b: Seq<u8>, pos: int, v: Value, depth: int, max_depth: int) -> bool {
    &&& spec_wf(v)
    &&& depth + spec_height(v) <= max_depth
    &&& pos + spec_encode(v).len() <= b.len()
    &&& b.subrange(pos, pos + spec_encode(v).len()) == spec_encode(v)
}

/// The values of `a` are encoded canonically one after another from `pos`.
pub open spec fn spec_items_at(b: Seq<u8>, pos: int, a: Seq<Value>, depth: int, max_depth: int) -> bool {
    &&& spec_wf_list(a)
    &&& (a.len() > 0 ==> depth + spec_height_list(a) <= max_depth)
    &&& pos + spec_encode_list(a).len() <= b.len()
    &&& b.subrange(pos, pos + spec_encode_list(a).len()) == spec_encode_list(a)
}

/// The entries `a`, sorted by key, are encoded canonically from `pos`.
pub open spec fn spec_entries_at(b: Seq<u8>, pos: int, a: Seq<(String, Value)>, depth: int, max_depth: int) -> bool {
    &&& spec_keys_sorted(a)
    &&& spec_wf_entries(a)
    &&& (a.len() > 0 ==> depth + spec_height_entries(a) <= max_depth)
    &&& pos + spec_encode_entries(a).len() <= b.len()
    &&& b.subrange(pos, pos + spec_encode_entries(a).len()) == spec_encode_entries(a)
}

/// The text `t` is encoded at `pos`.
pub open spec fn spec_text_at(b: Seq<u8>, pos: int, t: Seq<char>) -> bool {
    pos + spec_encode_text(t).len() <= b.len() && b.subrange(pos, pos + spec_encode_text(t).len())
        == spec_encode_text(t)
}

/// The major type of a value's encoding.
pub open spec fn spec_major(v: Value) -> nat {
    match v {
        Value::Integer(i) => if i >= 0 { 0 } else { 1 },
        Value::Bytes(_) => 2,
        Value::Text(_) => 3,
        Value::Array(_) => 4,
        Value::Object(_) => 5,
        _ => 7,
    }
}

proof fn lemma_head_first(major: nat, a: nat)
    requires
        major < 8,
    ensures
        spec_head(major, a).len() >= 1,
        spec_head(major, a)[0] / 32 == major,
{
}

proof fn lemma_first_byte(v: Value)
    ensures
        spec_encode(v).len() >= 1,
        spec_encode(v)[0] / 32 == spec_major(v),
        v is Null ==> spec_encode(v)[0] == 0xf6,
        v matches Value::Bool(x) ==> spec_encode(v)[0] == (if x { 0xf5u8 } else { 0xf4u8 }),
        v is Float ==> spec_encode(v)[0] == 0xf9 || spec_encode(v)[0] == 0xfa || spec_encode(v)[0] == 0xfb,
{
    match v {
        Value::Integer(i) => lemma_head_first(if i >= 0 { 0 } else { 1 }, spec_int_arg(i)),
        Value::Bytes(x) => lemma_head_first(2, x@.len()),
        Value::Text(t) => lemma_head_first(3, spec_utf8(t@).len()),
        Value::Array(a) => lemma_head_first(4, a@.len()),
        Value::Object(m) => lemma_head_first(5, m.entries@.len()),
        _ => {},
    }
}

proof fn lemma_list_is_prefix(s: Seq<Value>, j: int)
    requires
        0 <= j <= s.len(),
    ensures
        spec_encode_list(s.subrange(0, j)).len() <= spec_encode_list(s).len(),
        spec_encode_list(s).subrange(0, spec_encode_list(s.subrange(0, j)).len() as int)
            == spec_encode_list(s.subrange(0, j)),
    decreases s.len() - j,
{
    if j == s.len() {
        assert(s.subrange(0, j) =~= s);
        assert(spec_encode_list(s).subrange(0, spec_encode_list(s).len() as int) =~= spec_encode_list(s));
    } else {
        lemma_list_is_prefix(s, j + 1);
        assert(s.subrange(0, j + 1).subrange(0, j) =~= s.subrange(0, j));
        let p = spec_encode_list(s.subrange(0, j));
        let q = spec_encode_list(s.subrange(0, j + 1));
        assert(q == p + spec_encode(s[j]));
        assert(spec_encode_list(s).subrange(0, p.len() as int) =~= q.subrange(0, p.len() as int));
        assert(q.subrange(0, p.len() as int) =~= p);
    }
}

proof fn lemma_entries_is_prefix(s: Seq<(String, Value)>, j: int)
    requires
        0 <= j <= s.len(),
    ensures
        spec_encode_entries(s.subrange(0, j)).len() <= spec_encode_entries(s).len(),
        spec_encode_entries(s).subrange(0, spec_encode_entries(s.subrange(0, j)).len() as int)
            == spec_encode_entries(s.subrange(0, j)),
    decreases s.len() - j,
{
    if j == s.len() {
        assert(s.subrange(0, j) =~= s);
        assert(spec_encode_entries(s).subrange(0, spec_encode_entries(s).len() as int) =~= spec_encode_entries(s));
    } else {
        lemma_entries_is_prefix(s, j + 1);
        assert(s.subrange(0, j + 1).subrange(0, j) =~= s.subrange(0, j));
        let p = spec_encode_entries(s.subrange(0, j));
        let q = spec_encode_entries(s.subrange(0, j + 1));
        assert(q == p + spec_encode_text(s[j].0@) + spec_encode(s[j].1));
        assert(spec_encode_entries(s).subrange(0, p.len() as int) =~= q.subrange(0, p.len() as int));
        assert(q.subrange(0, p.len() as int) =~= p);
    }
}

proof fn lemma_wf_list_index(s: Seq<Value>, i: int)
    requires
        spec_wf_list(s),
        0 <= i < s.len(),
    ensures
        spec_wf(s[i]),
        spec_wf_list(s.subrange(0, i)),
    decreases s.len(),
{
    let init = s.subrange(0, s.len() - 1);
    if i < s.len() - 1 {
        lemma_wf_list_index(init, i);
        assert(init.subrange(0, i) =~= s.subrange(0, i));
    } else {
        assert(init =~= s.subrange(0, i));
    }
}

proof fn lemma_wf_entries_index(s: Seq<(String, Value)>, i: int)
    requires
        spec_wf_entries(s),
        0 <= i < s.len(),
    ensures
        spec_wf(s[i].1),
    decreases s.len(),
{
    let init = s.subrange(0, s.len() - 1);
    if i < s.len() - 1 {
        lemma_wf_entries_index(init, i);
    }
}

proof fn lemma_height_list_index(s: Seq<Value>, i: int)
    requires
        0 <= i < s.len(),
    ensures
        spec_height(s[i]) <= spec_height_list(s),
    decreases s.len(),
{
    let init = s.subrange(0, s.len() - 1);
    if i < s.len() - 1 {
        lemma_height_list_index(init, i);
    }
}

proof fn lemma_height_entries_index(s: Seq<(String, Value)>, i: int)
    requires
        0 <= i < s.len(),
    ensures
        spec_height(s[i].1) <= spec_height_entries(s),
    decreases s.len(),
{
    let init = s.subrange(0, s.len() - 1);
    if i < s.len() - 1 {
        lemma_height_entries_index(init, i);
    }
}

/// The `i`-th of canonically encoded items sits canonically at its offset.
proof fn lemma_item_at(b: Seq<u8>, start: int, a: Seq<Value>, depth: int, max_depth: int, i: int)
    requires
        spec_items_at(b, start, a, depth, max_depth),
        0 <= start,
        0 <= i < a.len(),
    ensures
        spec_canonical_at(b, start + spec_encode_list(a.subrange(0, i)).len(), a[i], depth, max_depth),
        spec_encode_list(a.subrange(0, i + 1)) == spec_encode_list(a.subrange(0, i)) + spec_encode(a[i]),
{
    assert(a.subrange(0, i + 1).subrange(0, i) =~= a.subrange(0, i));
    let p = spec_encode_list(a.subrange(0, i));
    let q = spec_encode_list(a.subrange(0, i + 1));
    let e = spec_encode(a[i]);
    assert(q == p + e);
    lemma_list_is_prefix(a, i + 1);
    lemma_wf_list_index(a, i);
    lemma_height_list_index(a, i);
    let all = spec_encode_list(a);
    let pl = p.len() as int;
    let el = e.len() as int;
    let cur = start + pl;
    let bs = b.subrange(start, start + all.len());
    assert(bs == all);
    assert(b.subrange(cur, cur + el) =~= bs.subrange(pl, pl + el));
    assert(all.subrange(pl, pl + el) =~= q.subrange(pl, q.len() as int));
    assert(q.subrange(pl, q.len() as int) =~= e);
}

/// The key and value of the `i`-th of canonically encoded entries.
proof fn lemma_entry_at(b: Seq<u8>, start: int, a: Seq<(String, Value)>, depth: int, max_depth: int, i: int)
    requires
        spec_entries_at(b, start, a, depth, max_depth),
        0 <= start,
        0 <= i < a.len(),
    ensures
        spec_text_at(b, start + spec_encode_entries(a.subrange(0, i)).len(), a[i].0@),
        spec_canonical_at(
            b,
            start + spec_encode_entries(a.subrange(0, i)).len() + spec_encode_text(a[i].0@).len(),
            a[i].1,
            depth,
            max_depth,
        ),
        spec_encode_entries(a.subrange(0, i + 1)) == spec_encode_entries(a.subrange(0, i))
            + spec_encode_text(a[i].0@) + spec_encode(a[i].1),
{
    assert(a.subrange(0, i + 1).subrange(0, i) =~= a.subrange(0, i));
    let p = spec_encode_entries(a.subrange(0, i));
    let q = spec_encode_entries(a.subrange(0, i + 1));
    let k = spec_encode_text(a[i].0@);
    let e = spec_encode(a[i].1);
    assert(q == p + k + e);
    lemma_entries_is_prefix(a, i + 1);
    lemma_wf_entries_index(a, i);
    lemma_height_entries_index(a, i);
    let all = spec_encode_entries(a);
    let pl = p.len() as int;
    let kl = k.len() as int;
    let el = e.len() as int;
    let cur = start + pl;
    let bs = b.subrange(start, start + all.len());
    assert(bs == all);
    assert(b.subrange(cur, cur + kl) =~= bs.subrange(pl, pl + kl));
    assert(all.subrange(pl, pl + kl) =~= q.subrange(pl, pl + kl));
    assert(q.subrange(pl, pl + kl) =~= k);
    let cur2 = cur + kl;
    assert(b.subrange(cur2, cur2 + el) =~= bs.subrange(pl + kl, pl + kl + el));
    assert(all.subrange(pl + kl, pl + kl + el) =~= q.subrange(pl + kl, q.len() as int));
    assert(q.subrange(pl + kl, q.len() as int) =~= e);
}

/// A byte sequence that is the start of `whole` at `pos` gives its prefix there.
proof fn lemma_prefix_at(b: Seq<u8>, pos: int, whole: Seq<u8>, part: Seq<u8>)
    requires
        0 <= pos,
        pos + whole.len() <= b.len(),
        b.subrange(pos, pos + whole.len()) == whole,
        part.len() <= whole.len(),
        whole.subrange(0, part.len() as int) == part,
    ensures
        b.subrange(pos, pos + part.len()) == part,
{
    assert(b.subrange(pos, pos + part.len()) =~= whole.subrange(0, part.len() as int));
}

/// Copies `b[start..end]` into a new vector.
fn copy_bytes(b: &[u8], start: usize, end: usize) -> (res: Vec<u8>)
    requires
        start <= end <= b@.len(),
    ensures
        res@ == b@.subrange(start as int, end as int),
{
    let mut out: Vec<u8> = Vec::new();
    let slice = &b[start..end];
    append_bytes(&mut out, slice);
    assert(out@ =~= b@.subrange(start as int, end as int));
    out
}

/// Decodes the text string at `pos`.
pub fn decode_text(b: &[u8], pos: usize) -> (res: Result<(String, usize), Error>)
    requires
        pos <= b@.len(),
    ensures
        res matches Ok((t, end)) ==> pos < end <= b@.len() && b@.subrange(pos as int, end as int)
            == spec_encode_text(t@),
        forall|t: Seq<char>| #[trigger] spec_text_at(b@, pos as int, t) ==> (res matches Ok((w, end)) && w@ == t
            && end == pos + spec_encode_text(t).len()),
        res matches Err(e) ==> e.offset_spec() is Some,
{
    if pos >= b.len() {
        return Err(Error::new(ErrorKind::UnexpectedEnd).at(pos));
    }
    let first = b[pos];
    if first / 32 != 3 {
        let res = Err(Error::new(ErrorKind::UnsupportedType).at(pos));
        proof {
            assert forall|t: Seq<char>| #[trigger] spec_text_at(b@, pos as int, t) implies false by {
                lemma_head_first(3, spec_utf8(t).len());
                assert(b@[pos as int] == spec_encode_text(t)[0]);
            }
        }
        return res;
    }
    let (n, next) = match read_head(b, pos) {
        Ok(r) => r,
        Err(e) => {
            proof {
                assert forall|t: Seq<char>| #[trigger] spec_text_at(b@, pos as int, t) implies false by {
                    let h = spec_head(3, spec_utf8(t).len());
                    assert(spec_encode_text(t).subrange(0, h.len() as int) =~= h);
                    lemma_prefix_at(b@, pos as int, spec_encode_text(t), h);
                    assert(spec_head_at(b@, pos as int, 3, spec_utf8(t).len()));
                }
            }
            return Err(e);
        },
    };
    let available = (b.len() - next) as u64;
    if available < n {
        let res = Err(Error::new(ErrorKind::UnexpectedEnd).at(pos));
        proof {
            assert forall|t: Seq<char>| #[trigger] spec_text_at(b@, pos as int, t) implies false by {
                let h = spec_head(3, spec_utf8(t).len());
                assert(spec_encode_text(t).subrange(0, h.len() as int) =~= h);
                lemma_prefix_at(b@, pos as int, spec_encode_text(t), h);
                assert(spec_head_at(b@, pos as int, 3, spec_utf8(t).len()));
            }
        }
        return res;
    }
    let end = next + n as usize;
    let slice = &b[next..end];
    match utf8_str(slice) {
        Ok(text) => {
            let owned = text.to_owned();
            proof {
                assert(b@.subrange(pos as int, end as int) =~= b@.subrange(pos as int, next as int) + slice@);
                assert(owned@ == text@);
                assert(spec_utf8(owned@) == slice@);
                assert forall|t: Seq<char>| #[trigger] spec_text_at(b@, pos as int, t) implies
                    owned@ == t && end == pos + spec_encode_text(t).len() by {
                    let h = spec_head(3, spec_utf8(t).len());
                    assert(spec_encode_text(t).subrange(0, h.len() as int) =~= h);
                    lemma_prefix_at(b@, pos as int, spec_encode_text(t), h);
                    assert(spec_head_at(b@, pos as int, 3, spec_utf8(t).len()));
                    assert(b@.subrange(next as int, end as int) =~= spec_encode_text(t).subrange(h.len() as int, spec_encode_text(t).len() as int));
                    assert(spec_encode_text(t).subrange(h.len() as int, spec_encode_text(t).len() as int) =~= spec_utf8(t));
                    vstd::utf8::encode_utf8_decode_utf8(t);
                    vstd::utf8::encode_utf8_decode_utf8(owned@);
                }
            }
            Ok((owned, end))
        },
        Err(_) => {
            let res = Err(Error::new(ErrorKind::InvalidUtf8).at(pos));
            proof {
                assert forall|t: Seq<char>| #[trigger] spec_text_at(b@, pos as int, t) implies false by {
                    let h = spec_head(3, spec_utf8(t).len());
                    assert(spec_encode_text(t).subrange(0, h.len() as int) =~= h);
                    lemma_prefix_at(b@, pos as int, spec_encode_text(t), h);
                    assert(spec_head_at(b@, pos as int, 3, spec_utf8(t).len()));
                    assert(slice@ =~= spec_encode_text(t).subrange(h.len() as int, spec_encode_text(t).len() as int));
                    assert(spec_encode_text(t).subrange(h.len() as int, spec_encode_text(t).len() as int) =~= spec_utf8(t));
                    vstd::utf8::encode_utf8_valid_utf8(t);
                }
            }
            res
        },
    }
}


/// The canonical float bytes of `bits` are at `pos`.
pub open spec fn spec_float_at(b: Seq<u8>, pos: int, bits: u64) -> bool {
    pos + spec_float_bytes(bits).len() <= b.len() && b.subrange(pos, pos + spec_float_bytes(bits).len())
        == spec_float_bytes(bits)
}

fn same_bytes(a: &[u8], b: &[u8]) -> (res: bool)
    ensures
        res <==> a@ == b@,
{
    if a.len() != b.len() {
        return false;
    }
    let mut i: usize = 0;
    while i < a.len()
        invariant
            a@.len() == b@.len(),
            i <= a@.len(),
            forall|j: int| 0 <= j < i ==> a@[j] == b@[j],
        decreases a@.len() - i,
    {
        if a[i] != b[i] {
            return false;
        }
        i = i + 1;
    }
    assert(a@ =~= b@);
    true
}

proof fn lemma_float_read(b: Seq<u8>, pos: int, bits: u64, width: nat)
    requires
        0 <= pos,
        spec_float_wf(bits),
        spec_float_at(b, pos, bits),
        width == (if b[pos] == 0xf9 { 2nat } else if b[pos] == 0xfa { 4nat } else { 8nat }),
    ensures
        spec_float_bytes(bits).len() == width + 1,
        width == 2 ==> spec_widen16(spec_be_value(b.subrange(pos + 1, pos + 1 + width))) == Some(bits as nat),
        width == 4 ==> spec_widen32(spec_be_value(b.subrange(pos + 1, pos + 1 + width))) == Some(bits as nat),
        width == 8 ==> spec_be_value(b.subrange(pos + 1, pos + 1 + width)) == bits as nat,
{
    lemma_pow256_values();
    let fb = spec_float_bytes(bits);
    assert(b[pos] == fb[0]);
    let bs = b.subrange(pos, pos + fb.len());
    assert(bs == fb);
    let body = b.subrange(pos + 1, pos + 1 + width);
    if spec_f16_exact(bits) {
        lemma_widen16_inverse(bits);
        lemma_value_of_be(spec_f16_bits(bits), 2);
        assert(body =~= bs.subrange(1, 3));
        assert(fb.subrange(1, 3) =~= spec_be(spec_f16_bits(bits), 2));
    } else if spec_f32_exact(bits) {
        lemma_widen32_inverse(bits);
        lemma_value_of_be(spec_f32_bits(bits), 4);
        assert(body =~= bs.subrange(1, 5));
        assert(fb.subrange(1, 5) =~= spec_be(spec_f32_bits(bits), 4));
    } else {
        lemma_value_of_be(bits as nat, 8);
        assert(body =~= bs.subrange(1, 9));
        assert(fb.subrange(1, 9) =~= spec_be(bits as nat, 8));
    }
}

/// Decodes the float at `pos`, whose first byte announces a float width.
pub fn decode_float(b: &[u8], pos: usize) -> (res: Result<(FiniteFloat, usize), Error>)
    requires
        pos < b@.len(),
        b@[pos as int] == 0xf9 || b@[pos as int] == 0xfa || b@[pos as int] == 0xfb,
    ensures
        res matches Ok((f, end)) ==> pos < end <= b@.len() && b@.subrange(pos as int, end as int)
            == spec_float_bytes(f.bits) && spec_float_wf(f.bits),
        forall|bits: u64| spec_float_wf(bits) && #[trigger] spec_float_at(b@, pos as int, bits)
            ==> (res matches Ok((f, end)) && f.bits == bits && end == pos + spec_float_bytes(bits).len()),
        res matches Err(e) ==> e.offset_spec() == Some(pos),
{
    let first = b[pos];
    let width: usize = if first == 0xf9 { 2 } else if first == 0xfa { 4 } else { 8 };
    proof {
        lemma_pow256_values();
    }
    if b.len() - (pos + 1) < width {
        let res = Err(Error::new(ErrorKind::UnexpectedEnd).at(pos));
        proof {
            assert forall|bits: u64| spec_float_wf(bits) && #[trigger] spec_float_at(b@, pos as int, bits) implies false by {
                assert(b@[pos as int] == spec_float_bytes(bits)[0]);
                if spec_f16_exact(bits) {
                    lemma_widen16_inverse(bits);
                    lemma_value_of_be(spec_f16_bits(bits), 2);
                } else if spec_f32_exact(bits) {
                    lemma_widen32_inverse(bits);
                    lemma_value_of_be(spec_f32_bits(bits), 4);
                } else {
                    lemma_value_of_be(bits as nat, 8);
                }
            }
        }
        return res;
    }
    let raw = read_be(b, pos + 1, width);
    let ghost body = b@.subrange(pos + 1, pos + 1 + width);
    proof {
        lemma_be_value_bound(body);
    }
    let widened = if width == 2 {
        widen16(raw)
    } else if width == 4 {
        widen32(raw)
    } else if (raw >> 52u64) & 0x7ffu64 == 0x7ff {
        None
    } else {
        Some(raw)
    };
    proof {
        vstd::bits::lemma_u64_shr_is_div(raw, 52u64);
        vstd::bits::lemma_u64_low_bits_mask_is_mod(raw >> 52u64, 11);
        vstd::bits::lemma_low_bits_mask_values();
        vstd::arithmetic::power2::lemma2_to64();
    }
    proof {
        assert forall|bits: u64| spec_float_wf(bits) && #[trigger] spec_float_at(b@, pos as int, bits)
            implies widened == Some(bits) && width == spec_float_bytes(bits).len() - 1 by {
            lemma_float_read(b@, pos as int, bits, width as nat);
        }
    }
    let bits = match widened {
        Some(bits) => bits,
        None => return Err(Error::new(ErrorKind::NonFiniteFloat).at(pos)),
    };
    if bits == 0x8000_0000_0000_0000u64 {
        return Err(Error::noncanonical(CanonicalityReason::NegativeZero).at(pos));
    }
    let mut expected: Vec<u8> = Vec::new();
    push_float(&mut expected, bits);
    assert(expected@ =~= spec_float_bytes(bits));
    let end = pos + 1 + width;
    let slice = &b[pos..end];
    if !same_bytes(expected.as_slice(), slice) {
        return Err(Error::noncanonical(CanonicalityReason::WideFloat).at(pos));
    }
    let f = match FiniteFloat::from_bits(bits) {
        Some(f) => f,
        None => return Err(Error::new(ErrorKind::NonFiniteFloat).at(pos)),
    };
    Ok((f, end))
}


/// Decodes the value at `pos`, a node at `depth` of at most `max_depth`.
pub fn decode_value(b: &[u8], pos: usize, depth: usize, max_depth: usize) -> (res: Result<(Value, usize), Error>)
    requires
        pos <= b@.len(),
        depth <= max_depth,
    ensures
        res matches Ok((w, end)) ==> pos < end <= b@.len() && b@.subrange(pos as int, end as int) == spec_encode(w)
            && spec_wf(w) && depth + spec_height(w) <= max_depth,
        forall|v: Value| #[trigger] spec_canonical_at(b@, pos as int, v, depth as int, max_depth as int)
            ==> (res matches Ok((w, end)) && end == pos + spec_encode(v).len() && spec_same(w, v)),
        res matches Err(e) ==> e.offset_spec() is Some,
    decreases b@.len() - pos, 0nat,
{
    if pos >= b.len() {
        let res = Err(Error::new(ErrorKind::UnexpectedEnd).at(pos));
        proof {
            assert forall|v: Value| #[trigger] spec_canonical_at(b@, pos as int, v, depth as int, max_depth as int)
                implies false by {
                lemma_first_byte(v);
            }
        }
        return res;
    }
    let first = b[pos];
    let major = first / 32;
    let blen = b.len();
    proof {
        assert forall|v: Value| #[trigger] spec_canonical_at(b@, pos as int, v, depth as int, max_depth as int)
            implies spec_major(v) == major && b@[pos as int] == spec_encode(v)[0] by {
            lemma_first_byte(v);
            assert(b@[pos as int] == b@.subrange(pos as int, pos + spec_encode(v).len())[0]);
        }
    }
    if major == 7 {
        return decode_simple(b, pos, depth, max_depth);
    }
    if major == 6 {
        return Err(Error::new(ErrorKind::UnsupportedType).at(pos));
    }
    if major == 3 {
        let res = decode_text(b, pos);
        proof {
            assert forall|v: Value| #[trigger] spec_canonical_at(b@, pos as int, v, depth as int, max_depth as int)
                implies (v matches Value::Text(t) && spec_text_at(b@, pos as int, t@)) by {
            }
        }
        return match res {
            Ok((t, end)) => Ok((Value::Text(t), end)),
            Err(e) => Err(e),
        };
    }
    let (arg, next) = match read_head(b, pos) {
        Ok(r) => r,
        Err(e) => {
            proof {
                assert forall|v: Value| #[trigger] spec_canonical_at(b@, pos as int, v, depth as int, max_depth as int)
                    implies false by {
                    lemma_head_prefix(v);
                    let h = spec_value_head(v);
                    lemma_prefix_at(b@, pos as int, spec_encode(v), h);
                    assert(spec_head_at(b@, pos as int, major as nat, spec_value_arg(v)));
                }
            }
            return Err(e);
        },
    };
    proof {
        assert forall|v: Value| #[trigger] spec_canonical_at(b@, pos as int, v, depth as int, max_depth as int)
            implies arg == spec_value_arg(v) && next == pos + spec_value_head(v).len() by {
            lemma_head_prefix(v);
            let h = spec_value_head(v);
            lemma_prefix_at(b@, pos as int, spec_encode(v), h);
            assert(spec_head_at(b@, pos as int, major as nat, spec_value_arg(v)));
        }
    }
    if major == 0 || major == 1 {
        if arg > 0x7fff_ffff_ffff_ffffu64 {
            return Err(Error::new(ErrorKind::IntegerOutOfRange).at(pos));
        }
        let value: i64 = if major == 0 { arg as i64 } else { -1 - (arg as i64) };
        let w = Value::Integer(value);
        proof {
            assert(spec_encode(w) == spec_head(major as nat, arg as nat));
        }
        return Ok((w, next));
    }
    if major == 2 {
        let available = (b.len() - next) as u64;
        if available < arg {
            return Err(Error::new(ErrorKind::UnexpectedEnd).at(pos));
        }
        let end = next + arg as usize;
        let bytes = copy_bytes(b, next, end);
        let w = Value::Bytes(bytes);
        proof {
            assert(b@.subrange(pos as int, end as int) =~= b@.subrange(pos as int, next as int) + bytes@);
            assert forall|v: Value| #[trigger] spec_canonical_at(b@, pos as int, v, depth as int, max_depth as int)
                implies end == pos + spec_encode(v).len() && spec_same(w, v) by {
                lemma_first_byte(v);
                assert(spec_major(v) == 2);
                if let Value::Bytes(x) = v {
                    let e = spec_encode(v);
                    let h = spec_head(2, x@.len());
                    let bs = b@.subrange(pos as int, pos + e.len());
                    assert(bs == e);
                    assert(bytes@ =~= bs.subrange((next - pos) as int, e.len() as int));
                    assert(e.subrange(h.len() as int, e.len() as int) =~= x@);
                }
            }
        }
        return Ok((w, end));
    }
    // Arrays and maps: children sit one level deeper when there are any.
    let child_depth = if arg > 0 {
        if depth >= max_depth {
            let res = Err(Error::new(ErrorKind::LimitExceeded { limit: LimitKind::Depth, maximum: max_depth }).at(pos));
            proof {
                assert forall|v: Value| #[trigger] spec_canonical_at(b@, pos as int, v, depth as int, max_depth as int)
                    implies false by {
                }
            }
            return res;
        }
        depth + 1
    } else {
        depth
    };
    if major == 4 {
        let res = decode_items(b, next, arg, child_depth, max_depth);
        proof {
            assert forall|v: Value| #[trigger] spec_canonical_at(b@, pos as int, v, depth as int, max_depth as int)
                implies (v matches Value::Array(a) && a@.len() == arg
                    && spec_items_at(b@, next as int, a@, child_depth as int, max_depth as int)) by {
                lemma_first_byte(v);
                assert(spec_major(v) == 4);
                if let Value::Array(a) = v {
                    let e = spec_encode(v);
                    let bs = b@.subrange(pos as int, pos + e.len());
                    assert(bs == e);
                    assert(b@.subrange(next as int, next + spec_encode_list(a@).len()) =~= bs.subrange((next - pos) as int, e.len() as int));
                    let h = spec_head(4, a@.len());
                    assert(e.subrange(h.len() as int, e.len() as int) =~= spec_encode_list(a@));
                }
            }
        }
        match res {
            Ok((items, end)) => {
                let w = Value::Array(items);
                proof {
                    assert(b@.subrange(pos as int, end as int) =~= b@.subrange(pos as int, next as int) + b@.subrange(next as int, end as int));
                }
                Ok((w, end))
            },
            Err(e) => Err(e),
        }
    } else {
        let res = decode_entries(b, next, arg, child_depth, max_depth);
        proof {
            assert forall|v: Value| #[trigger] spec_canonical_at(b@, pos as int, v, depth as int, max_depth as int)
                implies (v matches Value::Object(m) && m.entries@.len() == arg
                    && spec_entries_at(b@, next as int, m.entries@, child_depth as int, max_depth as int)) by {
                lemma_first_byte(v);
                assert(spec_major(v) == 5);
                if let Value::Object(m) = v {
                    let e = spec_encode(v);
                    let bs = b@.subrange(pos as int, pos + e.len());
                    assert(bs == e);
                    assert(b@.subrange(next as int, next + spec_encode_entries(m.entries@).len()) =~= bs.subrange((next - pos) as int, e.len() as int));
                    let h = spec_head(5, m.entries@.len());
                    assert(e.subrange(h.len() as int, e.len() as int) =~= spec_encode_entries(m.entries@));
                }
            }
        }
        match res {
            Ok((entries, end)) => {
                let w = Value::Object(ValueMap { entries });
                proof {
                    assert(b@.subrange(pos as int, end as int) =~= b@.subrange(pos as int, next as int) + b@.subrange(next as int, end as int));
                }
                Ok((w, end))
            },
            Err(e) => Err(e),
        }
    }
}

/// The header of a value of major type 0..=5.
pub open spec fn spec_value_head(v: Value) -> Seq<u8> {
    spec_head(spec_major(v), spec_value_arg(v))
}

/// The header argument of a value of major type 0..=5.
pub open spec fn spec_value_arg(v: Value) -> nat {
    match v {
        Value::Integer(i) => spec_int_arg(i),
        Value::Bytes(x) => x@.len(),
        Value::Text(t) => spec_utf8(t@).len(),
        Value::Array(a) => a@.len(),
        Value::Object(m) => m.entries@.len(),
        _ => 0,
    }
}

proof fn lemma_head_prefix(v: Value)
    requires
        spec_major(v) < 6,
    ensures
        spec_value_head(v).len() <= spec_encode(v).len(),
        spec_encode(v).subrange(0, spec_value_head(v).len() as int) == spec_value_head(v),
        spec_value_arg(v) < 9223372036854775808 || spec_value_arg(v) <= spec_encode(v).len(),
{
    let h = spec_value_head(v);
    let e = spec_encode(v);
    match v {
        Value::Integer(i) => {
            assert(e =~= h);
            assert(spec_int_arg(i) < 9223372036854775808);
            assert(spec_value_arg(v) == spec_int_arg(i));
        },
        Value::Bytes(x) => {
            assert(e.subrange(0, h.len() as int) =~= h);
        },
        Value::Text(t) => {
            assert(e.subrange(0, h.len() as int) =~= h);
        },
        Value::Array(a) => {
            assert(e.subrange(0, h.len() as int) =~= h);
            lemma_list_len(a@);
        },
        Value::Object(m) => {
            assert(e.subrange(0, h.len() as int) =~= h);
            lemma_entries_len(m.entries@);
        },
        _ => {},
    }
}

/// Every value encodes to at least one byte.
proof fn lemma_list_len(s: Seq<Value>)
    ensures
        spec_encode_list(s).len() >= s.len(),
    decreases s.len(),
{
    if s.len() > 0 {
        lemma_list_len(s.subrange(0, s.len() - 1));
        lemma_first_byte(s[s.len() - 1]);
    }
}

/// Every entry encodes to at least one byte.
proof fn lemma_entries_len(s: Seq<(String, Value)>)
    ensures
        spec_encode_entries(s).len() >= s.len(),
    decreases s.len(),
{
    if s.len() > 0 {
        lemma_entries_len(s.subrange(0, s.len() - 1));
        lemma_first_byte(s[s.len() - 1].1);
    }
}


/// Decodes a simple value or float (major type 7) at `pos`.
fn decode_simple(b: &[u8], pos: usize, depth: usize, max_depth: usize) -> (res: Result<(Value, usize), Error>)
    requires
        pos < b@.len(),
        b@[pos as int] / 32 == 7,
        depth <= max_depth,
    ensures
        res matches Ok((w, end)) ==> pos < end <= b@.len() && b@.subrange(pos as int, end as int) == spec_encode(w)
            && spec_wf(w) && depth + spec_height(w) <= max_depth,
        forall|v: Value| #[trigger] spec_canonical_at(b@, pos as int, v, depth as int, max_depth as int)
            ==> (res matches Ok((w, end)) && end == pos + spec_encode(v).len() && spec_same(w, v)),
        res matches Err(e) ==> e.offset_spec() is Some,
{
    let first = b[pos];
    proof {
        assert forall|v: Value| #[trigger] spec_canonical_at(b@, pos as int, v, depth as int, max_depth as int)
            implies b@[pos as int] == spec_encode(v)[0] && spec_major(v) == 7 by {
            lemma_first_byte(v);
            assert(b@[pos as int] == b@.subrange(pos as int, pos + spec_encode(v).len())[0]);
        }
    }
    if first == 0xf4 || first == 0xf5 || first == 0xf6 {
        let w = if first == 0xf6 { Value::Null } else { Value::Bool(first == 0xf5) };
        proof {
            assert(b@.subrange(pos as int, pos + 1) =~= spec_encode(w));
            assert forall|v: Value| #[trigger] spec_canonical_at(b@, pos as int, v, depth as int, max_depth as int)
                implies spec_encode(v).len() == 1 && spec_same(w, v) by {
                lemma_first_byte(v);
            }
        }
        return Ok((w, pos + 1));
    }
    if first == 0xf9 || first == 0xfa || first == 0xfb {
        let res = decode_float(b, pos);
        proof {
            assert forall|v: Value| #[trigger] spec_canonical_at(b@, pos as int, v, depth as int, max_depth as int)
                implies (v matches Value::Float(f) && spec_float_wf(f.bits) && spec_float_at(b@, pos as int, f.bits)) by {
                lemma_first_byte(v);
            }
        }
        return match res {
            Ok((f, end)) => Ok((Value::Float(f), end)),
            Err(e) => Err(e),
        };
    }
    let res = if first == 0xf8 && pos + 1 < b.len() && 20 <= b[pos + 1] && b[pos + 1] <= 22 {
        Err(Error::noncanonical(CanonicalityReason::WideSimple).at(pos))
    } else {
        Err(Error::new(ErrorKind::UnsupportedType).at(pos))
    };
    proof {
        assert forall|v: Value| #[trigger] spec_canonical_at(b@, pos as int, v, depth as int, max_depth as int)
            implies false by {
            lemma_first_byte(v);
        }
    }
    res
}

/// Decodes `n` consecutive values from `start`, each a node at `depth`.
fn decode_items(b: &[u8], start: usize, n: u64, depth: usize, max_depth: usize) -> (res: Result<(Vec<Value>, usize), Error>)
    requires
        start <= b@.len(),
        n > 0 ==> depth <= max_depth,
    ensures
        res matches Ok((items, end)) ==> items@.len() == n && start <= end <= b@.len()
            && b@.subrange(start as int, end as int) == spec_encode_list(items@) && spec_wf_list(items@)
            && (n > 0 ==> depth + spec_height_list(items@) <= max_depth),
        forall|a: Seq<Value>| a.len() == n && #[trigger] spec_items_at(b@, start as int, a, depth as int, max_depth as int)
            ==> (res matches Ok((items, end)) && end == start + spec_encode_list(a).len() && spec_same_list(items@, a)),
        res matches Err(e) ==> e.offset_spec() is Some,
    decreases b@.len() - start, 1nat,
{
    let mut items: Vec<Value> = Vec::new();
    let mut cur = start;
    let mut i: u64 = 0;
    assert(b@.subrange(start as int, start as int) =~= spec_encode_list(items@));
    while i < n
        invariant
            start <= cur <= b@.len(),
            i <= n,
            items@.len() == i,
            n > 0 ==> depth <= max_depth,
            b@.subrange(start as int, cur as int) == spec_encode_list(items@),
            spec_wf_list(items@),
            i > 0 ==> depth + spec_height_list(items@) <= max_depth,
            forall|a: Seq<Value>| a.len() == n && #[trigger] spec_items_at(b@, start as int, a, depth as int, max_depth as int)
                ==> cur == start + spec_encode_list(a.subrange(0, i as int)).len()
                    && spec_same_list(items@, a.subrange(0, i as int)),
        decreases n - i,
    {
        let step = decode_value(b, cur, depth, max_depth);
        proof {
            assert forall|a: Seq<Value>| a.len() == n && #[trigger] spec_items_at(b@, start as int, a, depth as int, max_depth as int)
                implies spec_canonical_at(b@, cur as int, a[i as int], depth as int, max_depth as int) by {
                lemma_item_at(b@, start as int, a, depth as int, max_depth as int, i as int);
            }
        }
        let (w, end) = match step {
            Ok(r) => r,
            Err(e) => {
                proof {
                    assert forall|a: Seq<Value>| a.len() == n && #[trigger] spec_items_at(b@, start as int, a, depth as int, max_depth as int)
                        implies false by {
                        assert(spec_canonical_at(b@, cur as int, a[i as int], depth as int, max_depth as int));
                    }
                }
                return Err(e);
            },
        };
        let ghost old_items = items@;
        items.push(w);
        proof {
            assert(items@.subrange(0, i as int) =~= old_items);
            assert(items@.subrange(0, items@.len() - 1) =~= old_items);
            assert(spec_height_list(items@) >= spec_height(w));
            assert(spec_height_list(items@) == spec_height_list(old_items) || spec_height_list(items@) == spec_height(w));
            assert(items@[i as int] == w);
            assert(b@.subrange(start as int, end as int) =~= b@.subrange(start as int, cur as int) + b@.subrange(cur as int, end as int));
            assert forall|a: Seq<Value>| a.len() == n && #[trigger] spec_items_at(b@, start as int, a, depth as int, max_depth as int)
                implies end == start + spec_encode_list(a.subrange(0, i + 1)).len()
                    && spec_same_list(items@, a.subrange(0, i + 1)) by {
                lemma_item_at(b@, start as int, a, depth as int, max_depth as int, i as int);
                assert(spec_canonical_at(b@, cur as int, a[i as int], depth as int, max_depth as int));
                assert(a.subrange(0, i + 1).subrange(0, i as int) =~= a.subrange(0, i as int));
            }
        }
        cur = end;
        i = i + 1;
    }
    proof {
        assert forall|a: Seq<Value>| a.len() == n && #[trigger] spec_items_at(b@, start as int, a, depth as int, max_depth as int)
            implies cur == start + spec_encode_list(a).len() && spec_same_list(items@, a) by {
            assert(a.subrange(0, n as int) =~= a);
        }
    }
    Ok((items, cur))
}

/// Decodes `n` map entries from `start`, with values as nodes at `depth`;
/// keys must be text strictly increasing in canonical order.
fn decode_entries(b: &[u8], start: usize, n: u64, depth: usize, max_depth: usize)
    -> (res: Result<(Vec<(String, Value)>, usize), Error>)
    requires
        start <= b@.len(),
        n > 0 ==> depth <= max_depth,
    ensures
        res matches Ok((entries, end)) ==> entries@.len() == n && start <= end <= b@.len()
            && b@.subrange(start as int, end as int) == spec_encode_entries(entries@) && spec_wf_entries(entries@)
            && spec_keys_sorted(entries@) && (n > 0 ==> depth + spec_height_entries(entries@) <= max_depth),
        forall|a: Seq<(String, Value)>| a.len() == n && #[trigger] spec_entries_at(b@, start as int, a, depth as int, max_depth as int)
            ==> (res matches Ok((entries, end)) && end == start + spec_encode_entries(a).len()
                && spec_same_entries(entries@, a)),
        res matches Err(e) ==> e.offset_spec() is Some,
    decreases b@.len() - start, 1nat,
{
    let mut entries: Vec<(String, Value)> = Vec::new();
    let mut cur = start;
    let mut i: u64 = 0;
    assert(b@.subrange(start as int, start as int) =~= spec_encode_entries(entries@));
    while i < n
        invariant
            start <= cur <= b@.len(),
            i <= n,
            entries@.len() == i,
            n > 0 ==> depth <= max_depth,
            b@.subrange(start as int, cur as int) == spec_encode_entries(entries@),
            spec_wf_entries(entries@),
            spec_keys_sorted(entries@),
            i > 0 ==> depth + spec_height_entries(entries@) <= max_depth,
            forall|a: Seq<(String, Value)>| a.len() == n && #[trigger] spec_entries_at(b@, start as int, a, depth as int, max_depth as int)
                ==> cur == start + spec_encode_entries(a.subrange(0, i as int)).len()
                    && spec_same_entries(entries@, a.subrange(0, i as int)),
        decreases n - i,
    {
        let key_pos = cur;
        let key_step = decode_text(b, cur);
        proof {
            assert forall|a: Seq<(String, Value)>| a.len() == n && #[trigger] spec_entries_at(b@, start as int, a, depth as int, max_depth as int)
                implies spec_text_at(b@, cur as int, a[i as int].0@) by {
                lemma_entry_at(b@, start as int, a, depth as int, max_depth as int, i as int);
            }
        }
        let (key, after_key) = match key_step {
            Ok(r) => r,
            Err(e) => {
                proof {
                    assert forall|a: Seq<(String, Value)>| a.len() == n && #[trigger] spec_entries_at(b@, start as int, a, depth as int, max_depth as int)
                        implies false by {
                        assert(spec_text_at(b@, cur as int, a[i as int].0@));
                    }
                }
                return Err(e);
            },
        };
        if i > 0 {
            let last = entries.len() - 1;
            let order = compare_keys(entries[last].0.as_str().as_bytes(), key.as_str().as_bytes());
            match order {
                KeyOrder::Less => {},
                _ => {
                    let res = if order == KeyOrder::Equal {
                        Err(Error::new(ErrorKind::DuplicateMapKey).at(key_pos))
                    } else {
                        Err(Error::new(ErrorKind::MapKeyOutOfOrder).at(key_pos))
                    };
                    proof {
                        assert forall|a: Seq<(String, Value)>| a.len() == n && #[trigger] spec_entries_at(b@, start as int, a, depth as int, max_depth as int)
                            implies false by {
                            assert(spec_text_at(b@, cur as int, a[i as int].0@));
                            assert(entries@[last as int].0@ == a.subrange(0, i as int)[last as int].0@) by {
                                lemma_same_entries_key(entries@, a.subrange(0, i as int), last as int);
                            }
                            assert(spec_key_lt(spec_utf8(a[last as int].0@), spec_utf8(a[i as int].0@)));
                        }
                    }
                    return res;
                },
            }
        }
        let value_pos = after_key;
        let value_step = decode_value(b, value_pos, depth, max_depth);
        proof {
            assert forall|a: Seq<(String, Value)>| a.len() == n && #[trigger] spec_entries_at(b@, start as int, a, depth as int, max_depth as int)
                implies spec_canonical_at(b@, value_pos as int, a[i as int].1, depth as int, max_depth as int) by {
                lemma_entry_at(b@, start as int, a, depth as int, max_depth as int, i as int);
                assert(spec_text_at(b@, cur as int, a[i as int].0@));
            }
        }
        let (w, end) = match value_step {
            Ok(r) => r,
            Err(e) => {
                proof {
                    assert forall|a: Seq<(String, Value)>| a.len() == n && #[trigger] spec_entries_at(b@, start as int, a, depth as int, max_depth as int)
                        implies false by {
                        assert(spec_canonical_at(b@, value_pos as int, a[i as int].1, depth as int, max_depth as int));
                    }
                }
                return Err(e);
            },
        };
        let ghost old_entries = entries@;
        let ghost key_view = key@;
        entries.push((key, w));
        proof {
            assert(entries@.subrange(0, i as int) =~= old_entries);
            assert(entries@.subrange(0, entries@.len() - 1) =~= old_entries);
            assert(spec_height_entries(entries@) == spec_height_entries(old_entries) || spec_height_entries(entries@) == spec_height(w));
            assert(entries@[i as int].0@ == key_view);
            assert(b@.subrange(start as int, end as int) =~= b@.subrange(start as int, cur as int)
                + b@.subrange(cur as int, after_key as int) + b@.subrange(after_key as int, end as int));
            lemma_sorted_push(old_entries, entries@);
            assert forall|a: Seq<(String, Value)>| a.len() == n && #[trigger] spec_entries_at(b@, start as int, a, depth as int, max_depth as int)
                implies end == start + spec_encode_entries(a.subrange(0, i + 1)).len()
                    && spec_same_entries(entries@, a.subrange(0, i + 1)) by {
                lemma_entry_at(b@, start as int, a, depth as int, max_depth as int, i as int);
                assert(spec_text_at(b@, cur as int, a[i as int].0@));
                assert(spec_canonical_at(b@, value_pos as int, a[i as int].1, depth as int, max_depth as int));
                assert(a.subrange(0, i + 1).subrange(0, i as int) =~= a.subrange(0, i as int));
            }
        }
        cur = end;
        i = i + 1;
    }
    proof {
        assert forall|a: Seq<(String, Value)>| a.len() == n && #[trigger] spec_entries_at(b@, start as int, a, depth as int, max_depth as int)
            implies cur == start + spec_encode_entries(a).len() && spec_same_entries(entries@, a) by {
            assert(a.subrange(0, n as int) =~= a);
        }
    }
    Ok((entries, cur))
}

proof fn lemma_same_entries_key(s: Seq<(String, Value)>, t: Seq<(String, Value)>, j: int)
    requires
        spec_same_entries(s, t),
        0 <= j < s.len(),
    ensures
        s[j].0@ == t[j].0@,
        s.len() == t.len(),
    decreases s.len(),
{
    if j < s.len() - 1 {
        lemma_same_entries_key(s.subrange(0, s.len() - 1), t.subrange(0, t.len() - 1), j);
    }
}

/// Appending a key greater than the last keeps entries sorted.
proof fn lemma_sorted_push(old: Seq<(String, Value)>, new: Seq<(String, Value)>)
    requires
        spec_keys_sorted(old),
        new.len() == old.len() + 1,
        new.subrange(0, old.len() as int) == old,
        old.len() > 0 ==> spec_key_lt(spec_utf8(old[old.len() - 1].0@), spec_utf8(new[old.len() as int].0@)),
    ensures
        spec_keys_sorted(new),
{
    assert forall|i: int, j: int| 0 <= i < j < new.len() implies spec_key_lt(
        spec_utf8(#[trigger] new[i].0@),
        spec_utf8(#[trigger] new[j].0@),
    ) by {
        assert(new[i] == old[i]);
        if j < old.len() {
            assert(new[j] == old[j]);
        } else if i < old.len() - 1 {
            let last = old.len() - 1;
            assert(new[last] == old[last]);
            lemma_key_order(spec_utf8(old[i].0@), spec_utf8(old[last].0@), spec_utf8(new[j].0@));
        }
    }
}


/// Decodes exactly one canonical value of the HTLK profile.
///
/// Succeeds exactly on the canonical encodings of well-formed values whose
/// size and depth fit the limits, returning that value; headers must be
/// shortest, lengths definite, floats shortest and finite, integers within
/// i64, text valid UTF-8, and map keys text in strictly increasing canonical
/// order. Bytes after the value are rejected.
pub fn decode(bytes: &[u8], limits: &Limits) -> (res: Result<Value, Error>)
    ensures
        res matches Ok(w) ==> limits.spec_valid() && spec_encode(w) == bytes@ && spec_wf(w)
            && spec_encode(w).len() <= limits.max_document_bytes && spec_height(w) <= limits.max_depth,
        forall|v: Value| limits.spec_valid() && spec_wf(v) && spec_height(v) <= limits.max_depth
            && bytes@.len() <= limits.max_document_bytes && #[trigger] spec_encode(v) == bytes@
            ==> (res matches Ok(w) && spec_same(w, v)),
        !limits.spec_valid() ==> (res matches Err(e) && e.kind == ErrorKind::InvalidLimits),
{
    limits.validate()?;
    if bytes.len() > limits.max_document_bytes {
        return Err(Error::new(ErrorKind::LimitExceeded {
            limit: LimitKind::DocumentBytes,
            maximum: limits.max_document_bytes,
        }));
    }
    let (value, end) = match decode_value(bytes, 0, 0, limits.max_depth) {
        Ok(r) => r,
        Err(e) => {
            proof {
                assert forall|v: Value| limits.spec_valid() && spec_wf(v) && spec_height(v) <= limits.max_depth
                    && bytes@.len() <= limits.max_document_bytes && #[trigger] spec_encode(v) == bytes@ implies false by {
                    assert(bytes@.subrange(0, bytes@.len() as int) =~= bytes@);
                    assert(spec_canonical_at(bytes@, 0, v, 0, limits.max_depth as int));
                }
            }
            return Err(e);
        },
    };
    if end != bytes.len() {
        let res = Err(Error::new(ErrorKind::TrailingData).at(end));
        proof {
            assert forall|v: Value| limits.spec_valid() && spec_wf(v) && spec_height(v) <= limits.max_depth
                && bytes@.len() <= limits.max_document_bytes && #[trigger] spec_encode(v) == bytes@ implies false by {
                assert(bytes@.subrange(0, bytes@.len() as int) =~= bytes@);
                assert(spec_canonical_at(bytes@, 0, v, 0, limits.max_depth as int));
            }
        }
        return res;
    }
    proof {
        assert(bytes@.subrange(0, bytes@.len() as int) =~= bytes@);
        assert forall|v: Value| limits.spec_valid() && spec_wf(v) && spec_height(v) <= limits.max_depth
            && bytes@.len() <= limits.max_document_bytes && #[trigger] spec_encode(v) == bytes@ implies spec_same(value, v) by {
            assert(spec_canonical_at(bytes@, 0, v, 0, limits.max_depth as int));
        }
    }
    Ok(value)
}

} // verus!

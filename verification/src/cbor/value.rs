use vstd::prelude::*;
use vstd::arithmetic::power2::pow2;

verus! {

/// A finite binary64 value held by its IEEE-754 bit pattern.
///
/// The profile excludes NaN, the infinities and negative zero; see
/// [`spec_float_wf`].
#[derive(Clone, Copy, Debug, PartialEq, Eq, Structural)]
pub struct FiniteFloat {
    /// The IEEE-754 binary64 bit pattern.
    pub bits: u64,
}

/// Biased binary64 exponent field of `bits`.
pub open spec fn spec_exponent(bits: u64) -> nat {
    ((bits as nat) / pow2(52)) % 2048
}

/// Binary64 fraction field of `bits`.
pub open spec fn spec_fraction(bits: u64) -> nat {
    (bits as nat) % pow2(52)
}

/// Binary64 sign bit of `bits`.
pub open spec fn spec_sign(bits: u64) -> nat {
    (bits as nat) / pow2(63)
}

/// The bit pattern is finite (not NaN or infinite) and is not negative zero.
pub open spec fn spec_float_wf(bits: u64) -> bool {
    spec_exponent(bits) != 2047 && bits != 0x8000_0000_0000_0000u64
}

impl FiniteFloat {
    /// Admits a bit pattern only when it is finite and not negative zero.
    pub fn from_bits(bits: u64) -> (res: Option<FiniteFloat>)
        ensures
            res is Some <==> spec_float_wf(bits),
            res matches Some(f) ==> f.bits == bits,
    {
        let exponent = (bits >> 52u64) & 0x7ffu64;
        proof {
            vstd::bits::lemma_u64_shr_is_div(bits, 52u64);
            vstd::bits::lemma_u64_low_bits_mask_is_mod(bits >> 52u64, 11);
            vstd::bits::lemma_low_bits_mask_values();
            vstd::arithmetic::power2::lemma2_to64();
        }
        if exponent == 0x7ff || bits == 0x8000_0000_0000_0000u64 {
            None
        } else {
            Some(FiniteFloat { bits })
        }
    }

    /// The exact bit pattern.
    pub fn to_bits(&self) -> (res: u64)
        ensures
            res == self.bits,
    {
        self.bits
    }
}

/// One HTLK value: the deterministic CBOR profile's data model.
#[derive(Debug)]
pub enum Value {
    /// Explicit null.
    Null,
    /// Boolean.
    Bool(bool),
    /// Signed 64-bit integer.
    Integer(i64),
    /// Finite binary64 float.
    Float(FiniteFloat),
    /// Unicode text.
    Text(String),
    /// Opaque bytes.
    Bytes(Vec<u8>),
    /// Ordered array.
    Array(Vec<Value>),
    /// Text-keyed map in canonical key order.
    Object(ValueMap),
}

/// Text-keyed map entries. Well-formed maps hold strictly increasing keys
/// in canonical CBOR order ([`spec_key_lt`]).
#[derive(Debug)]
pub struct ValueMap {
    /// Entries in stored order.
    pub entries: Vec<(String, Value)>,
}

/// Strict lexicographic order of byte strings.
pub open spec fn spec_lex_lt(a: Seq<u8>, b: Seq<u8>) -> bool
    decreases a.len(),
{
    if a.len() == 0 {
        b.len() > 0
    } else if b.len() == 0 {
        false
    } else if a[0] != b[0] {
        a[0] < b[0]
    } else {
        spec_lex_lt(a.drop_first(), b.drop_first())
    }
}

/// Canonical CBOR order of text keys by their UTF-8 bytes: shorter encodings
/// first, then bytewise. This equals the order of the encoded keys.
pub open spec fn spec_key_lt(a: Seq<u8>, b: Seq<u8>) -> bool {
    a.len() < b.len() || (a.len() == b.len() && spec_lex_lt(a, b))
}

/// UTF-8 bytes of text.
pub open spec fn spec_utf8(s: Seq<char>) -> Seq<u8> {
    vstd::utf8::encode_utf8(s)
}

/// Keys strictly increase in canonical order.
pub open spec fn spec_keys_sorted(entries: Seq<(String, Value)>) -> bool {
    forall|i: int, j: int|
        0 <= i < j < entries.len() ==> spec_key_lt(
            spec_utf8(#[trigger] entries[i].0@),
            spec_utf8(#[trigger] entries[j].0@),
        )
}

/// Structural well-formedness: finite floats, sorted unique map keys.
pub open spec fn spec_wf(v: Value) -> bool
    decreases v,
{
    match v {
        Value::Float(f) => spec_float_wf(f.bits),
        Value::Array(a) => spec_wf_list(a@),
        Value::Object(m) => spec_keys_sorted(m.entries@) && spec_wf_entries(m.entries@),
        _ => true,
    }
}

/// Every element is well formed.
pub open spec fn spec_wf_list(s: Seq<Value>) -> bool
    decreases s,
{
    if s.len() == 0 {
        true
    } else {
        spec_wf_list(s.subrange(0, s.len() - 1)) && spec_wf(s[s.len() - 1])
    }
}

/// Every entry value is well formed.
pub open spec fn spec_wf_entries(s: Seq<(String, Value)>) -> bool
    decreases s,
{
    if s.len() == 0 {
        true
    } else {
        spec_wf_entries(s.subrange(0, s.len() - 1)) && spec_wf(s[s.len() - 1].1)
    }
}

/// Nesting height: scalars and empty collections are zero; a nonempty
/// collection is one more than its tallest child.
pub open spec fn spec_height(v: Value) -> nat
    decreases v,
{
    match v {
        Value::Array(a) => if a.len() == 0 { 0 } else { 1 + spec_height_list(a@) },
        Value::Object(m) => if m.entries.len() == 0 { 0 } else { 1 + spec_height_entries(m.entries@) },
        _ => 0,
    }
}

/// Tallest element height, zero for an empty sequence.
pub open spec fn spec_height_list(s: Seq<Value>) -> nat
    decreases s,
{
    if s.len() == 0 {
        0
    } else {
        let rest = spec_height_list(s.subrange(0, s.len() - 1));
        let last = spec_height(s[s.len() - 1]);
        if rest >= last { rest } else { last }
    }
}

/// Tallest entry-value height, zero for an empty sequence.
pub open spec fn spec_height_entries(s: Seq<(String, Value)>) -> nat
    decreases s,
{
    if s.len() == 0 {
        0
    } else {
        let rest = spec_height_entries(s.subrange(0, s.len() - 1));
        let last = spec_height(s[s.len() - 1].1);
        if rest >= last { rest } else { last }
    }
}

/// `n` big-endian bytes of `arg` (low-order bytes).
pub open spec fn spec_be(arg: nat, n: nat) -> Seq<u8>
    decreases n,
{
    if n == 0 {
        Seq::empty()
    } else {
        spec_be(arg / 256, (n - 1) as nat) + seq![(arg % 256) as u8]
    }
}

/// The shortest CBOR header for a major type and unsigned argument.
pub open spec fn spec_head(major: nat, arg: nat) -> Seq<u8> {
    if arg < 24 {
        seq![(major * 32 + arg) as u8]
    } else if arg < 256 {
        seq![(major * 32 + 24) as u8] + spec_be(arg, 1)
    } else if arg < 65536 {
        seq![(major * 32 + 25) as u8] + spec_be(arg, 2)
    } else if arg < 4294967296 {
        seq![(major * 32 + 26) as u8] + spec_be(arg, 4)
    } else {
        seq![(major * 32 + 27) as u8] + spec_be(arg, 8)
    }
}

/// A binary64 value is exactly representable as binary16.
pub open spec fn spec_f16_exact(bits: u64) -> bool {
    let e = spec_exponent(bits);
    let m = spec_fraction(bits);
    (e == 0 && m == 0)
    || (1009 <= e <= 1038 && m % pow2(42) == 0)
    || (999 <= e <= 1008 && (pow2(52) + m) % pow2((1051 - e) as nat) == 0)
}

/// The binary16 bit pattern of an exactly representable binary64 value.
pub open spec fn spec_f16_bits(bits: u64) -> nat {
    let e = spec_exponent(bits);
    let m = spec_fraction(bits);
    let sign = spec_sign(bits) * pow2(15);
    if e == 0 {
        sign
    } else if e >= 1009 {
        sign + ((e - 1008) as nat) * pow2(10) + m / pow2(42)
    } else {
        sign + (pow2(52) + m) / pow2((1051 - e) as nat)
    }
}

/// A binary64 value is exactly representable as binary32.
pub open spec fn spec_f32_exact(bits: u64) -> bool {
    let e = spec_exponent(bits);
    let m = spec_fraction(bits);
    (e == 0 && m == 0)
    || (897 <= e <= 1150 && m % pow2(29) == 0)
    || (874 <= e <= 896 && (pow2(52) + m) % pow2((926 - e) as nat) == 0)
}

/// The binary32 bit pattern of an exactly representable binary64 value.
pub open spec fn spec_f32_bits(bits: u64) -> nat {
    let e = spec_exponent(bits);
    let m = spec_fraction(bits);
    let sign = spec_sign(bits) * pow2(31);
    if e == 0 {
        sign
    } else if e >= 897 {
        sign + ((e - 896) as nat) * pow2(23) + m / pow2(29)
    } else {
        sign + (pow2(52) + m) / pow2((926 - e) as nat)
    }
}

/// Preferred serialization of a float: the shortest exact width.
pub open spec fn spec_float_bytes(bits: u64) -> Seq<u8> {
    if spec_f16_exact(bits) {
        seq![0xf9u8] + spec_be(spec_f16_bits(bits), 2)
    } else if spec_f32_exact(bits) {
        seq![0xfau8] + spec_be(spec_f32_bits(bits), 4)
    } else {
        seq![0xfbu8] + spec_be(bits as nat, 8)
    }
}

/// The CBOR argument of an integer: the value itself, or `-1 - value`.
pub open spec fn spec_int_arg(i: i64) -> nat {
    if i >= 0 { i as nat } else { (-1 - i) as nat }
}

/// Deterministic encoding of one text string.
pub open spec fn spec_encode_text(s: Seq<char>) -> Seq<u8> {
    spec_head(3, spec_utf8(s).len()) + spec_utf8(s)
}

/// Deterministic CBOR encoding of a value, children in stored order.
pub open spec fn spec_encode(v: Value) -> Seq<u8>
    decreases v,
{
    match v {
        Value::Null => seq![0xf6u8],
        Value::Bool(b) => if b { seq![0xf5u8] } else { seq![0xf4u8] },
        Value::Integer(i) => spec_head(if i >= 0 { 0 } else { 1 }, spec_int_arg(i)),
        Value::Float(f) => spec_float_bytes(f.bits),
        Value::Text(s) => spec_encode_text(s@),
        Value::Bytes(b) => spec_head(2, b@.len()) + b@,
        Value::Array(a) => spec_head(4, a@.len()) + spec_encode_list(a@),
        Value::Object(m) => spec_head(5, m.entries@.len()) + spec_encode_entries(m.entries@),
    }
}

/// Concatenated encodings of a sequence of values.
pub open spec fn spec_encode_list(s: Seq<Value>) -> Seq<u8>
    decreases s,
{
    if s.len() == 0 {
        Seq::empty()
    } else {
        spec_encode_list(s.subrange(0, s.len() - 1)) + spec_encode(s[s.len() - 1])
    }
}

/// Concatenated encodings of map entries, each key then value.
pub open spec fn spec_encode_entries(s: Seq<(String, Value)>) -> Seq<u8>
    decreases s,
{
    if s.len() == 0 {
        Seq::empty()
    } else {
        spec_encode_entries(s.subrange(0, s.len() - 1)) + spec_encode_text(s[s.len() - 1].0@)
            + spec_encode(s[s.len() - 1].1)
    }
}

} // verus!

verus! {

/// Two values denote the same data: equal variants and payload views.
pub open spec fn spec_same(a: Value, b: Value) -> bool
    decreases a,
{
    match a {
        Value::Null => b is Null,
        Value::Bool(x) => b matches Value::Bool(y) && x == y,
        Value::Integer(x) => b matches Value::Integer(y) && x == y,
        Value::Float(x) => b matches Value::Float(y) && x.bits == y.bits,
        Value::Text(s) => b matches Value::Text(t) && s@ == t@,
        Value::Bytes(s) => b matches Value::Bytes(t) && s@ == t@,
        Value::Array(s) => b matches Value::Array(t) && spec_same_list(s@, t@),
        Value::Object(m) => b matches Value::Object(n) && spec_same_entries(m.entries@, n.entries@),
    }
}

/// Element-wise [`spec_same`].
pub open spec fn spec_same_list(s: Seq<Value>, t: Seq<Value>) -> bool
    decreases s,
{
    s.len() == t.len() && (s.len() == 0 || (
        spec_same_list(s.subrange(0, s.len() - 1), t.subrange(0, t.len() - 1))
        && spec_same(s[s.len() - 1], t[t.len() - 1])))
}

/// Entry-wise equal keys and [`spec_same`] values.
pub open spec fn spec_same_entries(s: Seq<(String, Value)>, t: Seq<(String, Value)>) -> bool
    decreases s,
{
    s.len() == t.len() && (s.len() == 0 || (
        spec_same_entries(s.subrange(0, s.len() - 1), t.subrange(0, t.len() - 1))
        && s[s.len() - 1].0@ == t[t.len() - 1].0@
        && spec_same(s[s.len() - 1].1, t[t.len() - 1].1)))
}

/// Big-endian value of a byte sequence.
pub open spec fn spec_be_value(s: Seq<u8>) -> nat
    decreases s.len(),
{
    if s.len() == 0 {
        0
    } else {
        spec_be_value(s.subrange(0, s.len() - 1)) * 256 + s[s.len() - 1] as nat
    }
}

} // verus!

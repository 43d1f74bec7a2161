//! RFC 6901 location parsing and lookup, independent of schema-resource selection.

use vstd::prelude::*;
use vstd::string::*;

use crate::cbor::error::{Error, ErrorKind, LimitKind};
use crate::cbor::limits::Limits;
use crate::cbor::value::{spec_utf8, Value};
use crate::text::{advance_offset, char_width, collect_chars, lemma_utf8_concat, lemma_utf8_prefix_bound, lemma_utf8_take, push_char};

verus! {

/// Pointer errors retain locations and static categories, never submitted keys.
#[derive(Debug)]
#[non_exhaustive]
pub enum JsonPointerError {
    /// Invalid codec-limit configuration.
    Codec(Error),
    /// Invalid plain pointer, at a byte offset in the percent-decoded pointer.
    InvalidSyntax {
        /// Zero-based byte offset.
        offset: usize,
    },
    /// Invalid URI fragment character or percent escape.
    InvalidFragment {
        /// Zero-based byte offset in the submitted fragment.
        offset: usize,
    },
    /// Percent-decoded fragment is not UTF-8.
    InvalidUtf8 {
        /// Zero-based byte offset in the decoded fragment.
        offset: usize,
    },
    /// The indicated token names no object member or array element.
    MissingTarget {
        /// Zero-based token index.
        segment: usize,
    },
    /// An array reference token is not canonical unsigned decimal.
    InvalidIndex {
        /// Zero-based token index.
        segment: usize,
    },
    /// The indicated token attempts to traverse a scalar value.
    ScalarTraversal {
        /// Zero-based token index.
        segment: usize,
    },
    /// Pointer data or token-count ceiling exceeded.
    LimitExceeded {
        /// Exhausted logical resource.
        limit: LimitKind,
        /// Configured ceiling.
        maximum: usize,
    },
    /// Fallible storage reservation failed.
    AllocationFailed,
}

/// The index of the first `/` at or after `i`, or the end.
pub open spec fn spec_segment_end(c: Seq<char>, i: int) -> int
    decreases c.len() - i,
{
    if i >= c.len() {
        c.len() as int
    } else if c[i] == '/' {
        i
    } else {
        spec_segment_end(c, i + 1)
    }
}

/// A segment ends at the next `/` or at the end of the text.
pub proof fn lemma_segment_end(c: Seq<char>, i: int)
    requires
        0 <= i <= c.len(),
    ensures
        i <= spec_segment_end(c, i) <= c.len(),
        spec_segment_end(c, i) < c.len() ==> c[spec_segment_end(c, i)] == '/',
        forall|k: int| i <= k < spec_segment_end(c, i) ==> c[k] != '/',
    decreases c.len() - i,
{
    if i < c.len() && c[i] != '/' {
        lemma_segment_end(c, i + 1);
    }
}

/// The first malformed escape in `c[i..end]`: a `~` not followed by `0` or `1`.
pub open spec fn spec_bad_escape(c: Seq<char>, i: int, end: int) -> Option<int>
    decreases end - i,
{
    if i >= end {
        None
    } else if c[i] == '~' {
        if i + 1 < end && (c[i + 1] == '0' || c[i + 1] == '1') {
            spec_bad_escape(c, i + 2, end)
        } else {
            Some(i)
        }
    } else {
        spec_bad_escape(c, i + 1, end)
    }
}

/// The token spelled by `c[i..end]`: `~0` reads `~` and `~1` reads `/`.
pub open spec fn spec_unescape(c: Seq<char>, i: int, end: int) -> Seq<char>
    decreases end - i,
{
    if i >= end {
        Seq::empty()
    } else if c[i] == '~' && i + 1 < end {
        seq![if c[i + 1] == '0' { '~' } else { '/' }] + spec_unescape(c, i + 2, end)
    } else {
        seq![c[i]] + spec_unescape(c, i + 1, end)
    }
}

/// The exhausted-ceiling error.
pub open spec fn spec_exceeded(limit: LimitKind, maximum: usize) -> JsonPointerError {
    JsonPointerError::LimitExceeded { limit, maximum }
}

/// Reading the segments from char index `start`, just after a `/`, with `n`
/// tokens and `payload` decoded bytes before it. Each segment's count is
/// checked against the depth, collection and value ceilings, then its escapes,
/// then its decoded size and the running payload.
pub open spec fn spec_segments(c: Seq<char>, start: int, n: nat, payload: nat, l: Limits) -> Result<Seq<Seq<char>>, JsonPointerError>
    decreases c.len() - start,
{
    if start < 0 || start > c.len() {
        Ok(Seq::empty())
    } else {
        let end = spec_segment_end(c, start);
        let count = n + 1;
        if count > l.max_depth {
            Err(spec_exceeded(LimitKind::Depth, l.max_depth))
        } else if count > l.max_collection_entries {
            Err(spec_exceeded(LimitKind::CollectionEntries, l.max_collection_entries))
        } else if count > l.max_total_values {
            Err(spec_exceeded(LimitKind::TotalValues, l.max_total_values))
        } else {
            match spec_bad_escape(c, start, end) {
                Some(k) => Err(JsonPointerError::InvalidSyntax { offset: spec_utf8(c.take(k)).len() as usize }),
                None => {
                    let token = spec_unescape(c, start, end);
                    let len = spec_utf8(token).len();
                    if len > l.max_text_bytes {
                        Err(spec_exceeded(LimitKind::TextBytes, l.max_text_bytes))
                    } else if payload + len > l.max_total_payload_bytes {
                        Err(spec_exceeded(LimitKind::TotalPayloadBytes, l.max_total_payload_bytes))
                    } else if end >= c.len() {
                        Ok(seq![token])
                    } else {
                        proof {
                            lemma_segment_end(c, start);
                        }
                        match spec_segments(c, end + 1, count, payload + len, l) {
                            Ok(rest) => Ok(seq![token] + rest),
                            Err(e) => Err(e),
                        }
                    }
                },
            }
        }
    }
}

/// Reading plain pointer text under valid limits: the empty text is the
/// root; otherwise it starts with `/` and each `/` begins a token.
pub open spec fn spec_parse_pointer(c: Seq<char>, l: Limits) -> Result<Seq<Seq<char>>, JsonPointerError> {
    if spec_utf8(c).len() > l.max_document_bytes {
        Err(spec_exceeded(LimitKind::DocumentBytes, l.max_document_bytes))
    } else if c.len() == 0 {
        Ok(Seq::empty())
    } else if c[0] != '/' {
        Err(JsonPointerError::InvalidSyntax { offset: 0 })
    } else {
        spec_segments(c, 1, 0, 0, l)
    }
}

/// The value of an ASCII hex digit, either case.
pub open spec fn spec_hex_value(b: u8) -> Option<u8> {
    if 0x30 <= b <= 0x39 {
        Some((b - 0x30) as u8)
    } else if 0x61 <= b <= 0x66 {
        Some((b - 0x61 + 10) as u8)
    } else if 0x41 <= b <= 0x46 {
        Some((b - 0x41 + 10) as u8)
    } else {
        None
    }
}

/// A byte a URI fragment may hold literally: unreserved, sub-delims, `:`, `@`, `/` and `?`.
pub open spec fn spec_fragment_literal(b: u8) -> bool {
    (0x30 <= b <= 0x39) || (0x41 <= b <= 0x5a) || (0x61 <= b <= 0x7a)
        || b == 0x2d || b == 0x2e || b == 0x5f || b == 0x7e || b == 0x21 || b == 0x24 || b == 0x26
        || b == 0x27 || b == 0x28 || b == 0x29 || b == 0x2a || b == 0x2b || b == 0x2c || b == 0x3b
        || b == 0x3d || b == 0x3a || b == 0x40 || b == 0x2f || b == 0x3f
}

/// Percent-decoding fragment bytes from `pos`: `%` and two hex digits give
/// one byte, literal characters stand for themselves, anything else fails
/// at its offset. `+` stays a plus.
pub open spec fn spec_fragment_decode(f: Seq<u8>, pos: int) -> Result<Seq<u8>, JsonPointerError>
    decreases f.len() - pos,
{
    if pos < 0 || pos >= f.len() {
        Ok(Seq::empty())
    } else if f[pos] == 0x25 {
        if pos + 2 < f.len() && spec_hex_value(f[pos + 1]) is Some && spec_hex_value(f[pos + 2]) is Some {
            match spec_fragment_decode(f, pos + 3) {
                Ok(rest) => Ok(seq![(spec_hex_value(f[pos + 1])->0 * 16 + spec_hex_value(f[pos + 2])->0) as u8] + rest),
                Err(e) => Err(e),
            }
        } else {
            Err(JsonPointerError::InvalidFragment { offset: pos as usize })
        }
    } else if spec_fragment_literal(f[pos]) {
        match spec_fragment_decode(f, pos + 1) {
            Ok(rest) => Ok(seq![f[pos]] + rest),
            Err(e) => Err(e),
        }
    } else {
        Err(JsonPointerError::InvalidFragment { offset: pos as usize })
    }
}

/// Reading a `#` fragment under valid limits into its percent-decoded bytes.
pub open spec fn spec_fragment_bytes(f: Seq<u8>, l: Limits) -> Result<Seq<u8>, JsonPointerError> {
    if f.len() > l.max_document_bytes {
        Err(spec_exceeded(LimitKind::DocumentBytes, l.max_document_bytes))
    } else if f.len() == 0 || f[0] != 0x23 {
        Err(JsonPointerError::InvalidFragment { offset: 0 })
    } else {
        spec_fragment_decode(f, 1)
    }
}

fn hex_value(b: u8) -> (res: Option<u8>)
    ensures
        res == spec_hex_value(b),
{
    if 0x30 <= b && b <= 0x39 {
        Some(b - 0x30)
    } else if 0x61 <= b && b <= 0x66 {
        Some(b - 0x61 + 10)
    } else if 0x41 <= b && b <= 0x46 {
        Some(b - 0x41 + 10)
    } else {
        None
    }
}

fn fragment_literal(b: u8) -> (res: bool)
    ensures
        res == spec_fragment_literal(b),
{
    (0x30 <= b && b <= 0x39) || (0x41 <= b && b <= 0x5a) || (0x61 <= b && b <= 0x7a)
        || b == 0x2d || b == 0x2e || b == 0x5f || b == 0x7e || b == 0x21 || b == 0x24 || b == 0x26
        || b == 0x27 || b == 0x28 || b == 0x29 || b == 0x2a || b == 0x2b || b == 0x2c || b == 0x3b
        || b == 0x3d || b == 0x3a || b == 0x40 || b == 0x2f || b == 0x3f
}

fn decode_fragment(f: &[u8]) -> (res: Result<Vec<u8>, JsonPointerError>)
    requires
        f@.len() > 0,
    ensures
        match spec_fragment_decode(f@, 1) {
            Ok(d) => res matches Ok(v) && v@ == d,
            Err(e) => res == Err::<Vec<u8>, JsonPointerError>(e),
        },
{
    let mut out: Vec<u8> = Vec::new();
    let mut pos: usize = 1;
    while pos < f.len()
        invariant
            1 <= pos <= f@.len(),
            spec_fragment_decode(f@, 1) == match spec_fragment_decode(f@, pos as int) {
                Ok(rest) => Ok(out@ + rest),
                Err(e) => Err(e),
            },
        decreases f@.len() - pos,
    {
        let b = f[pos];
        if b == 0x25 {
            if f.len() - pos > 2 {
                let hi = hex_value(f[pos + 1]);
                let lo = hex_value(f[pos + 2]);
                match (hi, lo) {
                    (Some(h), Some(l)) => {
                        let byte: u8 = h * 16 + l;
                        proof {
                            assert(out@ + (seq![byte] + spec_fragment_decode(f@, pos + 3)->Ok_0) =~= out@.push(byte) + spec_fragment_decode(f@, pos + 3)->Ok_0);
                        }
                        out.push(byte);
                        pos = pos + 3;
                    },
                    _ => {
                        return Err(JsonPointerError::InvalidFragment { offset: pos });
                    },
                }
            } else {
                return Err(JsonPointerError::InvalidFragment { offset: pos });
            }
        } else if fragment_literal(b) {
            proof {
                assert(out@ + (seq![b] + spec_fragment_decode(f@, pos + 1)->Ok_0) =~= out@.push(b) + spec_fragment_decode(f@, pos + 1)->Ok_0);
            }
            out.push(b);
            pos = pos + 1;
        } else {
            return Err(JsonPointerError::InvalidFragment { offset: pos });
        }
    }
    proof {
        assert(out@ + Seq::<u8>::empty() =~= out@);
    }
    Ok(out)
}

/// The escaped spelling of one char in a pointer token.
pub open spec fn spec_escape_char(c: char) -> Seq<char> {
    if c == '~' {
        seq!['~', '0']
    } else if c == '/' {
        seq!['~', '1']
    } else {
        seq![c]
    }
}

/// A token's escaped spelling: `~` as `~0` and `/` as `~1`.
pub open spec fn spec_escape(t: Seq<char>) -> Seq<char>
    decreases t.len(),
{
    if t.len() == 0 {
        Seq::empty()
    } else {
        spec_escape(t.drop_last()) + spec_escape_char(t.last())
    }
}

/// The plain pointer text of a token sequence: each token after a `/`.
pub open spec fn spec_render(ts: Seq<Seq<char>>) -> Seq<char>
    decreases ts.len(),
{
    if ts.len() == 0 {
        Seq::empty()
    } else {
        spec_render(ts.drop_last()) + seq!['/'] + spec_escape(ts.last())
    }
}

/// A canonical array index: ASCII digits, without a leading zero unless it is `0`.
pub open spec fn spec_index_token(t: Seq<char>) -> bool {
    &&& t.len() > 0
    &&& forall|i: int| 0 <= i < t.len() ==> '0' <= #[trigger] t[i] <= '9'
    &&& !(t.len() > 1 && t[0] == '0')
}

/// The number spelled by decimal digits.
pub open spec fn spec_digits_value(t: Seq<char>) -> nat
    decreases t.len(),
{
    if t.len() == 0 {
        0
    } else {
        spec_digits_value(t.drop_last()) * 10 + ((t.last() as u32) - 48) as nat
    }
}

/// Resolving tokens `i..` from `v`: object members by exact key, array
/// elements by canonical decimal index; `-` and out-of-range indices name
/// nothing, and scalars cannot be traversed.
pub open spec fn spec_resolve(v: Value, ts: Seq<Seq<char>>, i: int) -> Result<Value, JsonPointerError>
    decreases ts.len() - i,
{
    if i < 0 || i >= ts.len() {
        Ok(v)
    } else {
        match v {
            Value::Object(m) => match crate::cbor::map::spec_find(m.entries@, ts[i]) {
                Some(x) => spec_resolve(x, ts, i + 1),
                None => Err(JsonPointerError::MissingTarget { segment: i as usize }),
            },
            Value::Array(a) => if ts[i] == seq!['-'] {
                Err(JsonPointerError::MissingTarget { segment: i as usize })
            } else if !spec_index_token(ts[i]) {
                Err(JsonPointerError::InvalidIndex { segment: i as usize })
            } else if spec_digits_value(ts[i]) >= a@.len() {
                Err(JsonPointerError::MissingTarget { segment: i as usize })
            } else {
                spec_resolve(a@[spec_digits_value(ts[i]) as int], ts, i + 1)
            },
            _ => Err(JsonPointerError::ScalarTraversal { segment: i as usize }),
        }
    }
}

/// Reads a canonical decimal index, or `None` when the token is not one.
/// A valid index too large for `usize` reads as `usize::MAX`, which no
/// allocated array reaches.
fn index_token(t: &str) -> (res: Option<usize>)
    ensures
        res is Some <==> spec_index_token(t@),
        res matches Some(n) ==> (spec_digits_value(t@) <= usize::MAX ==> n == spec_digits_value(t@))
            && (spec_digits_value(t@) > usize::MAX ==> n == usize::MAX),
{
    let c = collect_chars(t);
    if c.len() == 0 {
        return None;
    }
    if c.len() > 1 && c[0] == '0' {
        return None;
    }
    let mut value: usize = 0;
    let mut saturated = false;
    let mut i: usize = 0;
    assert(c@.take(0) =~= Seq::<char>::empty());
    while i < c.len()
        invariant
            i <= c@.len(),
            c@ == t@,
            forall|k: int| 0 <= k < i ==> '0' <= #[trigger] c@[k] <= '9',
            !saturated ==> value == spec_digits_value(c@.take(i as int)),
            saturated ==> spec_digits_value(c@.take(i as int)) > usize::MAX && value == usize::MAX,
        decreases c@.len() - i,
    {
        let ch = c[i];
        if !('0' <= ch && ch <= '9') {
            return None;
        }
        let d = (ch as u32 - 48) as usize;
        proof {
            assert(c@.take(i + 1).drop_last() =~= c@.take(i as int));
            assert(c@.take(i + 1).last() == ch);
        }
        if !saturated {
            if value > (usize::MAX - d) / 10 {
                proof {
                    assert(value * 10 + d > usize::MAX) by (nonlinear_arith)
                        requires value > (usize::MAX - d) / 10, d <= 9;
                }
                saturated = true;
                value = usize::MAX;
            } else {
                proof {
                    assert(value * 10 + d <= usize::MAX) by (nonlinear_arith)
                        requires value <= (usize::MAX - d) / 10, d <= 9;
                }
                value = value * 10 + d;
            }
        } else {
            proof {
                let p = spec_digits_value(c@.take(i as int));
                assert(p * 10 + d >= p) by (nonlinear_arith)
                    requires p >= 0, d >= 0;
            }
        }
        i = i + 1;
    }
    assert(c@.take(c@.len() as int) =~= c@);
    Some(value)
}

/// Immutable decoded JSON Pointer tokens. Parsing does not select a schema
/// resource, resolve anchors, or prove the target is a schema-bearing location.
#[derive(Clone, Debug, PartialEq)]
pub struct JsonPointer {
    tokens: Vec<String>,
}

impl View for JsonPointer {
    type V = Seq<Seq<char>>;

    closed spec fn view(&self) -> Seq<Seq<char>> {
        self.tokens@.map_values(|s: String| s@)
    }
}

proof fn lemma_views_push(s: Seq<String>, x: String)
    ensures
        s.push(x).map_values(|t: String| t@) == s.map_values(|t: String| t@).push(x@),
{
    assert(s.push(x).map_values(|t: String| t@) =~= s.map_values(|t: String| t@).push(x@));
}

impl JsonPointer {
    /// Exact decoded reference tokens; an empty sequence selects the root.
    pub fn tokens(&self) -> (res: &[String])
        ensures
            res@.map_values(|s: String| s@) == self@,
    {
        self.tokens.as_slice()
    }

    /// Parses a URI fragment beginning with `#`. Percent decoding precedes JSON
    /// Pointer escape decoding; `+` remains a plus. Non-ASCII fragment characters
    /// must use UTF-8 percent encoding. A named anchor is not a JSON Pointer.
    pub fn from_fragment(fragment: &str, limits: &Limits) -> (res: Result<JsonPointer, JsonPointerError>)
        ensures
            !limits.spec_valid() ==> (res matches Err(JsonPointerError::Codec(e)) && e.kind == ErrorKind::InvalidLimits),
            limits.spec_valid() ==> match spec_fragment_bytes(fragment.spec_bytes(), *limits) {
                Err(e) => res == Err::<JsonPointer, JsonPointerError>(e),
                Ok(d) => if vstd::utf8::valid_utf8(d) {
                    match spec_parse_pointer(vstd::utf8::decode_utf8(d), *limits) {
                        Ok(t) => res matches Ok(p) && p@ == t,
                        Err(e) => res == Err::<JsonPointer, JsonPointerError>(e),
                    }
                } else {
                    res matches Err(JsonPointerError::InvalidUtf8 { offset }) && offset < d.len()
                        && vstd::utf8::valid_utf8(d.take(offset as int))
                        && forall|m: int| offset < m <= d.len() ==> !vstd::utf8::valid_utf8(#[trigger] d.take(m))
                },
            },
    {
        if let Err(e) = limits.validate() {
            return Err(JsonPointerError::Codec(e));
        }
        let f = fragment.as_bytes();
        if f.len() > limits.max_document_bytes {
            return Err(JsonPointerError::LimitExceeded { limit: LimitKind::DocumentBytes, maximum: limits.max_document_bytes });
        }
        if f.len() == 0 || f[0] != 0x23 {
            return Err(JsonPointerError::InvalidFragment { offset: 0 });
        }
        let decoded = decode_fragment(f)?;
        match crate::text::utf8_str(decoded.as_slice()) {
            Ok(text) => {
                proof {
                    vstd::utf8::encode_utf8_decode_utf8(text@);
                }
                JsonPointer::new(text, limits)
            },
            Err(n) => Err(JsonPointerError::InvalidUtf8 { offset: n }),
        }
    }

    /// The plain RFC 6901 text: each token after a `/`, with `~` written `~0`
    /// and `/` written `~1`.
    pub fn to_text(&self) -> (res: String)
        ensures
            res@ == spec_render(self@),
    {
        let mut out = String::new();
        let mut i: usize = 0;
        assert(self@.take(0) =~= Seq::<Seq<char>>::empty());
        while i < self.tokens.len()
            invariant
                i <= self.tokens@.len(),
                out@ == spec_render(self@.take(i as int)),
            decreases self.tokens@.len() - i,
        {
            push_char(&mut out, '/');
            let chars = collect_chars(self.tokens[i].as_str());
            let ghost base = out@;
            let mut k: usize = 0;
            assert(chars@.take(0) =~= Seq::<char>::empty());
            while k < chars.len()
                invariant
                    k <= chars@.len(),
                    out@ == base + spec_escape(chars@.take(k as int)),
                decreases chars@.len() - k,
            {
                let ch = chars[k];
                proof {
                    assert(chars@.take(k + 1).drop_last() =~= chars@.take(k as int));
                }
                if ch == '~' {
                    push_char(&mut out, '~');
                    push_char(&mut out, '0');
                } else if ch == '/' {
                    push_char(&mut out, '~');
                    push_char(&mut out, '1');
                } else {
                    push_char(&mut out, ch);
                }
                proof {
                    assert(out@ =~= base + spec_escape(chars@.take(k + 1)));
                }
                k = k + 1;
            }
            proof {
                assert(chars@.take(chars@.len() as int) =~= chars@);
                assert(self@[i as int] == self.tokens@[i as int]@);
                assert(self@.take(i + 1).drop_last() =~= self@.take(i as int));
                assert(out@ =~= spec_render(self@.take(i + 1)));
            }
            i = i + 1;
        }
        assert(self@.take(self@.len() as int) =~= self@);
        out
    }

    /// Resolves a location in a JSON document's value without copying values.
    /// Object keys are exact strings; arrays require canonical decimal indices.
    /// A present JSON null is a successful result, never a missing target.
    pub fn resolve<'a>(&self, document: &'a Value) -> (res: Result<&'a Value, JsonPointerError>)
        ensures
            match spec_resolve(*document, self@, 0) {
                Ok(v) => res matches Ok(r) && *r == v,
                Err(e) => res == Err::<&Value, JsonPointerError>(e),
            },
    {
        let mut current = document;
        let mut i: usize = 0;
        while i < self.tokens.len()
            invariant
                i <= self@.len(),
                self@.len() == self.tokens@.len(),
                spec_resolve(*document, self@, 0) == spec_resolve(*current, self@, i as int),
            decreases self.tokens@.len() - i,
        {
            let token = self.tokens[i].as_str();
            proof {
                assert(self@[i as int] == self.tokens@[i as int]@);
            }
            current = match current {
                Value::Object(m) => match m.get(token) {
                    Some(v) => v,
                    None => return Err(JsonPointerError::MissingTarget { segment: i }),
                },
                Value::Array(a) => {
                    if crate::text::same_text(token, "-") {
                        proof {
                            reveal_strlit("-");
                            assert("-"@ =~= seq!['-']);
                        }
                        return Err(JsonPointerError::MissingTarget { segment: i });
                    }
                    proof {
                        reveal_strlit("-");
                        assert("-"@ =~= seq!['-']);
                    }
                    let index = match index_token(token) {
                        Some(n) => n,
                        None => return Err(JsonPointerError::InvalidIndex { segment: i }),
                    };
                    if index >= a.len() {
                        return Err(JsonPointerError::MissingTarget { segment: i });
                    }
                    &a[index]
                },
                _ => return Err(JsonPointerError::ScalarTraversal { segment: i }),
            };
            i = i + 1;
        }
        Ok(current)
    }

    /// Parses the plain RFC 6901 string form. Empty text selects the root; every
    /// nonempty pointer starts with `/`. No Unicode or percent normalization occurs.
    pub fn new(text: &str, limits: &Limits) -> (res: Result<JsonPointer, JsonPointerError>)
        ensures
            !limits.spec_valid() ==> (res matches Err(JsonPointerError::Codec(e)) && e.kind == ErrorKind::InvalidLimits),
            limits.spec_valid() ==> match spec_parse_pointer(text@, *limits) {
                Ok(t) => res matches Ok(p) && p@ == t,
                Err(e) => res == Err::<JsonPointer, JsonPointerError>(e),
            },
    {
        if let Err(e) = limits.validate() {
            return Err(JsonPointerError::Codec(e));
        }
        let total = text.as_bytes().len();
        if total > limits.max_document_bytes {
            return Err(JsonPointerError::LimitExceeded { limit: LimitKind::DocumentBytes, maximum: limits.max_document_bytes });
        }
        let mut tokens: Vec<String> = Vec::new();
        if total == 0 {
            proof {
                assert(text@.len() == 0) by {
                    if text@.len() > 0 {
                        vstd::utf8::encode_utf8_first_scalar(text@);
                    }
                }
                assert(tokens@.map_values(|s: String| s@) =~= Seq::<Seq<char>>::empty());
            }
            return Ok(JsonPointer { tokens });
        }
        let c = collect_chars(text);
        let ghost cs = c@;
        let ghost l = *limits;
        proof {
            if cs.len() == 0 {
                assert(spec_utf8(cs) =~= Seq::<u8>::empty());
            }
        }
        if c[0] != '/' {
            return Err(JsonPointerError::InvalidSyntax { offset: 0 });
        }
        let mut payload: usize = 0;
        let mut start: usize = 1;
        let mut offset: usize = 1;
        proof {
            lemma_utf8_take(cs, 0);
            assert(cs.take(0) =~= Seq::<char>::empty());
            assert(spec_utf8(Seq::<char>::empty()) =~= Seq::<u8>::empty());
            assert(tokens@.map_values(|s: String| s@) =~= Seq::<Seq<char>>::empty());
            assert(cs.take(cs.len() as int) =~= cs);
        }
        loop
            invariant
                cs == c@,
                cs == text@,
                l == *limits,
                l.spec_valid(),
                tokens@.len() <= l.max_depth,
                1 <= start <= cs.len(),
                offset == spec_utf8(cs.take(start as int)).len(),
                spec_utf8(cs).len() == total,
                total <= l.max_document_bytes,
                payload <= l.max_total_payload_bytes,
                spec_parse_pointer(cs, l) == match spec_segments(cs, start as int, tokens@.len(), payload as nat, l) {
                    Ok(rest) => Ok(tokens@.map_values(|s: String| s@) + rest),
                    Err(e) => Err(e),
                },
            decreases cs.len() - start,
        {
            let mut end = start;
            while end < c.len() && c[end] != '/'
                invariant
                    start <= end <= cs.len(),
                    cs == c@,
                    spec_segment_end(cs, start as int) == spec_segment_end(cs, end as int),
                decreases cs.len() - end,
            {
                end = end + 1;
            }
            proof {
                lemma_segment_end(cs, start as int);
                lemma_utf8_prefix_bound(cs, end as int);
                assert(spec_segment_end(cs, end as int) == end as int);
                assert(spec_segment_end(cs, start as int) == end as int);
            }
            let count = tokens.len() + 1;
            if count > limits.max_depth {
                return Err(JsonPointerError::LimitExceeded { limit: LimitKind::Depth, maximum: limits.max_depth });
            }
            if count > limits.max_collection_entries {
                return Err(JsonPointerError::LimitExceeded { limit: LimitKind::CollectionEntries, maximum: limits.max_collection_entries });
            }
            if count > limits.max_total_values {
                return Err(JsonPointerError::LimitExceeded { limit: LimitKind::TotalValues, maximum: limits.max_total_values });
            }
            let length = match scan_segment(&c, start, end, offset) {
                Ok(n) => n,
                Err(e) => return Err(e),
            };
            if length > limits.max_text_bytes {
                return Err(JsonPointerError::LimitExceeded { limit: LimitKind::TextBytes, maximum: limits.max_text_bytes });
            }
            if length > limits.max_total_payload_bytes - payload {
                return Err(JsonPointerError::LimitExceeded { limit: LimitKind::TotalPayloadBytes, maximum: limits.max_total_payload_bytes });
            }
            payload = payload + length;
            let token = decode_segment(&c, start, end);
            let ghost before = tokens@;
            tokens.push(token);
            proof {
                lemma_views_push(before, token);
            }
            if end == c.len() {
                proof {
                    assert(tokens@.map_values(|s: String| s@) =~= before.map_values(|s: String| s@) + seq![token@]);
                }
                return Ok(JsonPointer { tokens });
            }
            proof {
                lemma_utf8_take(cs, end as int);
                lemma_utf8_prefix_bound(cs, end + 1);
                assert(cs[end as int] == '/');
                assert(vstd::utf8::encode_scalar('/' as u32).len() == 1);
                assert(before.map_values(|s: String| s@) + (seq![token@] + spec_segments(cs, end + 1, tokens@.len(), payload as nat, l)->Ok_0)
                    =~= tokens@.map_values(|s: String| s@) + spec_segments(cs, end + 1, tokens@.len(), payload as nat, l)->Ok_0);
            }
            offset = advance_offset(&c, start, end, offset) + 1;
            start = end + 1;
        }
    }
}

/// Checks the escapes of `c[start..end]` and counts its decoded UTF-8 bytes.
fn scan_segment(c: &Vec<char>, start: usize, end: usize, offset: usize) -> (res: Result<usize, JsonPointerError>)
    requires
        start <= end <= c@.len(),
        offset == spec_utf8(c@.take(start as int)).len(),
        spec_utf8(c@.take(end as int)).len() <= usize::MAX,
    ensures
        match spec_bad_escape(c@, start as int, end as int) {
            Some(k) => res == Err::<usize, JsonPointerError>(JsonPointerError::InvalidSyntax { offset: spec_utf8(c@.take(k)).len() as usize }),
            None => res == Ok::<usize, JsonPointerError>(spec_utf8(spec_unescape(c@, start as int, end as int)).len() as usize)
                && spec_utf8(spec_unescape(c@, start as int, end as int)).len() <= usize::MAX,
        },
{
    let ghost cs = c@;
    let mut k = start;
    let mut pos = offset;
    let mut length: usize = 0;
    let ghost mut decoded: Seq<char> = Seq::empty();
    proof {
        lemma_utf8_prefix_bound(cs.take(end as int), start as int);
        assert(cs.take(end as int).take(start as int) =~= cs.take(start as int));
    }
    while k < end
        invariant
            start <= k <= end,
            end <= cs.len(),
            cs == c@,
            pos == spec_utf8(cs.take(k as int)).len(),
            spec_utf8(cs.take(end as int)).len() <= usize::MAX,
            spec_bad_escape(cs, start as int, end as int) == spec_bad_escape(cs, k as int, end as int),
            spec_unescape(cs, start as int, end as int) == decoded + spec_unescape(cs, k as int, end as int),
            length == spec_utf8(decoded).len(),
            length <= pos - offset,
            offset == spec_utf8(cs.take(start as int)).len(),
        decreases end - k,
    {
        proof {
            lemma_utf8_take(cs, k as int);
            if k + 1 <= end {
                lemma_utf8_prefix_bound(cs.take(end as int), k + 1);
                assert(cs.take(end as int).take(k + 1) =~= cs.take(k + 1));
            }
        }
        if c[k] == '~' {
            if k + 1 < end && (c[k + 1] == '0' || c[k + 1] == '1') {
                proof {
                    let d = if cs[k + 1] == '0' { '~' } else { '/' };
                    assert(decoded + spec_unescape(cs, k as int, end as int)
                        =~= (decoded + seq![d]) + spec_unescape(cs, k + 2, end as int));
                    lemma_utf8_concat(decoded, seq![d]);
                    lemma_utf8_take(cs, k + 1);
                    assert(seq![d].drop_first() =~= Seq::<char>::empty());
                    assert(spec_utf8(Seq::<char>::empty()) =~= Seq::<u8>::empty());
                    decoded = decoded + seq![d];
                    lemma_utf8_prefix_bound(cs.take(end as int), k + 2);
                    assert(cs.take(end as int).take(k + 2) =~= cs.take(k + 2));
                }
                length = length + 1;
                pos = pos + 2;
                k = k + 2;
            } else {
                return Err(JsonPointerError::InvalidSyntax { offset: pos });
            }
        } else {
            let w = char_width(c[k]);
            proof {
                assert(decoded + spec_unescape(cs, k as int, end as int)
                    =~= (decoded + seq![cs[k as int]]) + spec_unescape(cs, k + 1, end as int));
                lemma_utf8_concat(decoded, seq![cs[k as int]]);
                assert(seq![cs[k as int]].drop_first() =~= Seq::<char>::empty());
                assert(spec_utf8(Seq::<char>::empty()) =~= Seq::<u8>::empty());
                decoded = decoded + seq![cs[k as int]];
            }
            length = length + w;
            pos = pos + w;
            k = k + 1;
        }
    }
    proof {
        assert(decoded + Seq::<char>::empty() =~= decoded);
    }
    Ok(length)
}

/// Copies the token spelled by `c[start..end]`, whose escapes are well formed.
fn decode_segment(c: &Vec<char>, start: usize, end: usize) -> (res: String)
    requires
        start <= end <= c@.len(),
        spec_bad_escape(c@, start as int, end as int) is None,
    ensures
        res@ == spec_unescape(c@, start as int, end as int),
{
    let mut token = String::new();
    let mut k = start;
    while k < end
        invariant
            start <= k <= end <= c@.len(),
            spec_bad_escape(c@, k as int, end as int) is None,
            spec_unescape(c@, start as int, end as int) == token@ + spec_unescape(c@, k as int, end as int),
        decreases end - k,
    {
        if c[k] == '~' {
            let d = if c[k + 1] == '0' { '~' } else { '/' };
            proof {
                assert(token@ + spec_unescape(c@, k as int, end as int) =~= token@.push(d) + spec_unescape(c@, k + 2, end as int));
            }
            push_char(&mut token, d);
            k = k + 2;
        } else {
            proof {
                assert(token@ + spec_unescape(c@, k as int, end as int) =~= token@.push(c@[k as int]) + spec_unescape(c@, k + 1, end as int));
            }
            push_char(&mut token, c[k]);
            k = k + 1;
        }
    }
    proof {
        assert(token@ + Seq::<char>::empty() =~= token@);
    }
    token
}

} // verus!

verus! {

/// The number of `/` characters in `s`.
pub open spec fn spec_slash_count(s: Seq<char>) -> nat
    decreases s.len(),
{
    if s.len() == 0 {
        0
    } else {
        (if s[0] == '/' { 1nat } else { 0nat }) + spec_slash_count(s.drop_first())
    }
}

proof fn lemma_slash_count_append(a: Seq<char>, b: Seq<char>)
    ensures
        spec_slash_count(a + b) == spec_slash_count(a) + spec_slash_count(b),
    decreases a.len(),
{
    if a.len() > 0 {
        assert((a + b).drop_first() =~= a.drop_first() + b);
        lemma_slash_count_append(a.drop_first(), b);
    } else {
        assert(a + b =~= b);
    }
}

proof fn lemma_slash_count_none(s: Seq<char>)
    requires
        forall|k: int| 0 <= k < s.len() ==> s[k] != '/',
    ensures
        spec_slash_count(s) == 0,
    decreases s.len(),
{
    if s.len() > 0 {
        lemma_slash_count_none(s.drop_first());
    }
}

proof fn lemma_escape_append(a: Seq<char>, b: Seq<char>)
    ensures
        spec_escape(a + b) == spec_escape(a) + spec_escape(b),
    decreases b.len(),
{
    if b.len() == 0 {
        assert(a + b =~= a);
        assert(spec_escape(a) + spec_escape(b) =~= spec_escape(a));
    } else {
        assert((a + b).drop_last() =~= a + b.drop_last());
        assert((a + b).last() == b.last());
        lemma_escape_append(a, b.drop_last());
        assert(spec_escape(a) + spec_escape(b) =~= spec_escape(a) + spec_escape(b.drop_last()) + spec_escape_char(b.last()));
    }
}

/// Escaping a well-escaped token's spelling gives the spelling back.
proof fn lemma_escape_unescape(c: Seq<char>, i: int, end: int)
    requires
        0 <= i <= end <= c.len(),
        forall|k: int| i <= k < end ==> c[k] != '/',
        spec_bad_escape(c, i, end) is None,
    ensures
        spec_escape(spec_unescape(c, i, end)) == c.subrange(i, end),
    decreases end - i,
{
    if i >= end {
        assert(c.subrange(i, end) =~= Seq::<char>::empty());
    } else if c[i] == '~' {
        lemma_escape_unescape(c, i + 2, end);
        let x = if c[i + 1] == '0' { '~' } else { '/' };
        lemma_escape_append(seq![x], spec_unescape(c, i + 2, end));
        assert(spec_escape(seq![x]) =~= spec_escape_char(x)) by {
            assert(seq![x].drop_last() =~= Seq::<char>::empty());
            assert(seq![x].last() == x);
            assert(spec_escape(Seq::<char>::empty()) =~= Seq::<char>::empty());
        }
        assert(c.subrange(i, end) =~= seq![c[i], c[i + 1]] + c.subrange(i + 2, end));
    } else {
        lemma_escape_unescape(c, i + 1, end);
        lemma_escape_append(seq![c[i]], spec_unescape(c, i + 1, end));
        assert(spec_escape(seq![c[i]]) =~= spec_escape_char(c[i])) by {
            assert(seq![c[i]].drop_last() =~= Seq::<char>::empty());
            assert(seq![c[i]].last() == c[i]);
            assert(spec_escape(Seq::<char>::empty()) =~= Seq::<char>::empty());
        }
        assert(c.subrange(i, end) =~= seq![c[i]] + c.subrange(i + 1, end));
    }
}

proof fn lemma_render_cons(t: Seq<char>, rest: Seq<Seq<char>>)
    ensures
        spec_render(seq![t] + rest) == seq!['/'] + spec_escape(t) + spec_render(rest),
    decreases rest.len(),
{
    if rest.len() == 0 {
        assert(seq![t] + rest =~= seq![t]);
        assert(seq![t].drop_last() =~= Seq::<Seq<char>>::empty());
        assert(spec_render(Seq::<Seq<char>>::empty()) =~= Seq::<char>::empty());
        assert(seq!['/'] + spec_escape(t) + spec_render(rest) =~= Seq::<char>::empty() + seq!['/'] + spec_escape(t));
    } else {
        assert((seq![t] + rest).drop_last() =~= seq![t] + rest.drop_last());
        assert((seq![t] + rest).last() == rest.last());
        lemma_render_cons(t, rest.drop_last());
        assert(spec_render(seq![t] + rest) =~= seq!['/'] + spec_escape(t) + spec_render(rest));
    }
}

/// The segments read from `start`, just after a `/`, render back as the text
/// from that `/` on, one token per `/`.
proof fn lemma_segments_render(c: Seq<char>, start: int, n: nat, payload: nat, l: Limits)
    requires
        1 <= start <= c.len(),
        c[start - 1] == '/',
        spec_segments(c, start, n, payload, l) is Ok,
    ensures
        spec_render(spec_segments(c, start, n, payload, l)->Ok_0) == c.subrange(start - 1, c.len() as int),
        spec_segments(c, start, n, payload, l)->Ok_0.len() == spec_slash_count(c.subrange(start - 1, c.len() as int)),
    decreases c.len() - start,
{
    lemma_segment_end(c, start);
    let end = spec_segment_end(c, start);
    let token = spec_unescape(c, start, end);
    lemma_escape_unescape(c, start, end);
    let seg = c.subrange(start, end);
    assert forall|k: int| 0 <= k < seg.len() implies seg[k] != '/' by {
        assert(seg[k] == c[start + k]);
    }
    lemma_slash_count_none(seg);
    assert(seq!['/'].drop_first() =~= Seq::<char>::empty());
    assert(spec_slash_count(Seq::<char>::empty()) == 0);
    assert(spec_slash_count(seq!['/']) == 1);
    let ts = spec_segments(c, start, n, payload, l)->Ok_0;
    if end >= c.len() {
        assert(ts =~= seq![token]);
        lemma_render_cons(token, Seq::<Seq<char>>::empty());
        assert(seq![token] + Seq::<Seq<char>>::empty() =~= seq![token]);
        assert(spec_render(Seq::<Seq<char>>::empty()) =~= Seq::<char>::empty());
        assert(c.subrange(start - 1, c.len() as int) =~= seq!['/'] + seg);
        lemma_slash_count_append(seq!['/'], seg);
        assert(seq!['/'].drop_first() =~= Seq::<char>::empty());
    } else {
        let count = n + 1;
        let len = spec_utf8(token).len();
        lemma_segments_render(c, end + 1, count, payload + len, l);
        let rest = spec_segments(c, end + 1, count, payload + len, l)->Ok_0;
        assert(ts == seq![token] + rest);
        assert(ts.len() == rest.len() + 1);
        lemma_render_cons(token, rest);
        assert(c.subrange(start - 1, c.len() as int) =~= seq!['/'] + seg + c.subrange(end, c.len() as int));
        lemma_slash_count_append(seq!['/'] + seg, c.subrange(end, c.len() as int));
        lemma_slash_count_append(seq!['/'], seg);
        assert(seq!['/'].drop_first() =~= Seq::<char>::empty());
    }
}

/// Reading back: a pointer read from plain text renders as that text, with
/// one token for each `/` in it.
pub proof fn lemma_pointer_text_roundtrip(c: Seq<char>, l: Limits)
    requires
        spec_parse_pointer(c, l) is Ok,
    ensures
        spec_render(spec_parse_pointer(c, l)->Ok_0) == c,
        spec_parse_pointer(c, l)->Ok_0.len() == spec_slash_count(c),
        (spec_parse_pointer(c, l)->Ok_0.len() == 0) == (c.len() == 0),
{
    if c.len() == 0 {
        assert(spec_render(Seq::<Seq<char>>::empty()) =~= c);
    } else {
        lemma_segments_render(c, 1, 0, 0, l);
        assert(c.subrange(0, c.len() as int) =~= c);
        lemma_slash_count_append(seq![c[0]], c.drop_first());
        assert(seq![c[0]] + c.drop_first() =~= c);
    }
}

} // verus!

verus! {

/// The hex digit spelling value `v` (below sixteen), in lower or upper case.
pub open spec fn spec_hex_spelling(v: int, upper: bool) -> u8 {
    if v < 10 {
        (0x30 + v) as u8
    } else if upper {
        (0x41 + v - 10) as u8
    } else {
        (0x61 + v - 10) as u8
    }
}

/// Percent escapes decode case-insensitively: `%` followed by the spellings,
/// in either case, of hex values `hi` and `lo` decodes to the byte
/// `16 * hi + lo`, followed by what the rest decodes to.
pub proof fn lemma_percent_escape_decodes(f: Seq<u8>, pos: int, hi: int, lo: int, hi_upper: bool, lo_upper: bool)
    requires
        0 <= pos,
        pos + 2 < f.len(),
        0 <= hi < 16,
        0 <= lo < 16,
        f[pos] == 0x25,
        f[pos + 1] == spec_hex_spelling(hi, hi_upper),
        f[pos + 2] == spec_hex_spelling(lo, lo_upper),
    ensures
        spec_fragment_decode(f, pos) == match spec_fragment_decode(f, pos + 3) {
            Ok(rest) => Ok::<Seq<u8>, JsonPointerError>(seq![(16 * hi + lo) as u8] + rest),
            Err(e) => Err::<Seq<u8>, JsonPointerError>(e),
        },
{
    assert(spec_hex_value(f[pos + 1]) == Some(hi as u8));
    assert(spec_hex_value(f[pos + 2]) == Some(lo as u8));
}

} // verus!

verus! {

/// Characters a URI fragment holds as themselves (RFC 3986 `pchar`, `/`,
/// `?`, without percent escapes): letters, digits and
/// `- . _ ~ ! $ & ' ( ) * + , ; = : @ / ?`.
pub open spec fn spec_rfc_fragment_char(b: u8) -> bool {
    (0x61 <= b <= 0x7a) || (0x41 <= b <= 0x5a) || (0x30 <= b <= 0x39) || b == '-' as u8 || b == '.' as u8
        || b == '_' as u8 || b == '~' as u8 || b == '!' as u8 || b == '$' as u8 || b == '&' as u8 || b == '\'' as u8
        || b == '(' as u8 || b == ')' as u8 || b == '*' as u8 || b == '+' as u8 || b == ',' as u8 || b == ';' as u8
        || b == '=' as u8 || b == ':' as u8 || b == '@' as u8 || b == '/' as u8 || b == '?' as u8
}

/// Fragment characters decode to themselves: decoding bytes that are all
/// such characters gives back the same bytes.
pub proof fn lemma_fragment_chars_decode_to_themselves(f: Seq<u8>, pos: int)
    requires
        0 <= pos <= f.len(),
        forall|k: int| pos <= k < f.len() ==> spec_rfc_fragment_char(#[trigger] f[k]),
    ensures
        spec_fragment_decode(f, pos) == Ok::<Seq<u8>, JsonPointerError>(f.subrange(pos, f.len() as int)),
    decreases f.len() - pos,
{
    if pos < f.len() {
        assert(spec_rfc_fragment_char(f[pos]));
        assert(spec_fragment_literal(f[pos]));
        lemma_fragment_chars_decode_to_themselves(f, pos + 1);
        assert(seq![f[pos]] + f.subrange(pos + 1, f.len() as int) =~= f.subrange(pos, f.len() as int));
    } else {
        assert(f.subrange(pos, f.len() as int) =~= Seq::<u8>::empty());
    }
}

} // verus!

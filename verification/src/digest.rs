//! SHA-256 digests: representation, strict text form, and canonical-CBOR hashing.

use vstd::prelude::*;
use vstd::string::*;

use crate::cbor::encode::{encode, spec_encode_failure};
use crate::cbor::error::{Error, ErrorKind};
use crate::cbor::limits::Limits;
use crate::cbor::value::{spec_encode, spec_height, spec_utf8, Value};

verus! {

/// SHA-256 of a byte sequence.
pub uninterp spec fn spec_sha256(data: Seq<u8>) -> Seq<u8>;

/// Calls `sha2::Sha256::digest` (through the `sha2::Digest` trait).
///
/// Trusted: the result is the SHA-256 digest of exactly the given bytes, a
/// function of those bytes alone, always 32 bytes long.
#[verifier::external_body]
fn sha256(data: &[u8]) -> (res: [u8; 32])
    ensures
        res@ == spec_sha256(data@),
{
    <sha2::Sha256 as sha2::Digest>::digest(data).into()
}

/// A 32-byte SHA-256 digest, written as `sha256:` plus 64 lowercase hex digits.
///
/// Construction and parsing validate representation only, not the content
/// or producer identified.
#[derive(Clone, Copy, Debug, Eq, Ord, Hash)]
pub struct Digest {
    bytes: [u8; 32],
}

impl View for Digest {
    type V = Seq<u8>;

    closed spec fn view(&self) -> Seq<u8> {
        self.bytes@
    }
}

/// A canonical digest-text parsing failure. Never retains input contents.
#[derive(Clone, Copy, Debug, PartialEq, Eq, Structural)]
#[non_exhaustive]
pub enum ParseDigestError {
    /// The text does not begin with the exact `sha256:` prefix.
    InvalidPrefix,
    /// The prefix is followed by something other than exactly 64 bytes.
    InvalidLength,
    /// The 64-byte suffix contains characters outside `0-9` and `a-f`.
    InvalidHex,
}

/// The lowercase hex digit for a nibble.
pub open spec fn spec_hex_char(n: nat) -> char {
    if n < 10 { ((0x30 + n) as u8) as char } else { ((0x57 + n) as u8) as char }
}

/// Lowercase hex of bytes, two digits per byte.
pub open spec fn spec_hex(b: Seq<u8>) -> Seq<char>
    decreases b.len(),
{
    if b.len() == 0 {
        Seq::empty()
    } else {
        spec_hex(b.subrange(0, b.len() - 1)) + seq![
            spec_hex_char((b[b.len() - 1] / 16) as nat),
            spec_hex_char((b[b.len() - 1] % 16) as nat),
        ]
    }
}

/// The text form of a digest.
pub open spec fn spec_digest_text(b: Seq<u8>) -> Seq<char> {
    seq!['s', 'h', 'a', '2', '5', '6', ':'] + spec_hex(b)
}

/// The value of a lowercase hex digit byte, if it is one.
pub open spec fn spec_hex_digit(c: u8) -> Option<u8> {
    if 0x30 <= c <= 0x39 {
        Some((c - 0x30) as u8)
    } else if 0x61 <= c <= 0x66 {
        Some((c - 0x57) as u8)
    } else {
        None
    }
}

/// The bytes spelled by pairs of lowercase hex digits.
pub open spec fn spec_unhex(t: Seq<u8>) -> Seq<u8>
    decreases t.len(),
{
    if t.len() < 2 {
        Seq::empty()
    } else {
        spec_unhex(t.subrange(0, t.len() - 2)) + seq![
            (spec_hex_digit(t[t.len() - 2]).unwrap() * 16 + spec_hex_digit(t[t.len() - 1]).unwrap()) as u8,
        ]
    }
}

/// The bytes `sha256:`.
pub open spec fn spec_digest_prefix() -> Seq<u8> {
    seq![0x73u8, 0x68, 0x61, 0x32, 0x35, 0x36, 0x3a]
}

/// Parsing digest text: prefix, then length, then hex digits are checked.
pub open spec fn spec_parse_digest(t: Seq<u8>) -> Result<Seq<u8>, ParseDigestError> {
    if t.len() < 7 || t.subrange(0, 7) != spec_digest_prefix() {
        Err(ParseDigestError::InvalidPrefix)
    } else if t.len() != 71 {
        Err(ParseDigestError::InvalidLength)
    } else if exists|i: int| 7 <= i < 71 && (#[trigger] spec_hex_digit(t[i])) is None {
        Err(ParseDigestError::InvalidHex)
    } else {
        Ok(spec_unhex(t.subrange(7, 71)))
    }
}

fn hex_text(n: u8) -> (res: &'static str)
    requires
        n < 16,
    ensures
        res@ == seq![spec_hex_char(n as nat)],
{
    proof {
        reveal_strlit("0"); reveal_strlit("1"); reveal_strlit("2"); reveal_strlit("3");
        reveal_strlit("4"); reveal_strlit("5"); reveal_strlit("6"); reveal_strlit("7");
        reveal_strlit("8"); reveal_strlit("9"); reveal_strlit("a"); reveal_strlit("b");
        reveal_strlit("c"); reveal_strlit("d"); reveal_strlit("e"); reveal_strlit("f");
    }
    if n == 0 { "0" } else if n == 1 { "1" } else if n == 2 { "2" } else if n == 3 { "3" }
    else if n == 4 { "4" } else if n == 5 { "5" } else if n == 6 { "6" } else if n == 7 { "7" }
    else if n == 8 { "8" } else if n == 9 { "9" } else if n == 10 { "a" } else if n == 11 { "b" }
    else if n == 12 { "c" } else if n == 13 { "d" } else if n == 14 { "e" } else { "f" }
}

fn hex_digit(c: u8) -> (res: Option<u8>)
    ensures
        res == spec_hex_digit(c),
{
    if 0x30 <= c && c <= 0x39 {
        Some(c - 0x30)
    } else if 0x61 <= c && c <= 0x66 {
        Some(c - 0x57)
    } else {
        None
    }
}

impl Digest {
    /// A digest of exactly these bytes; every 32-byte sequence is valid.
    pub fn from_bytes(bytes: [u8; 32]) -> (res: Digest)
        ensures
            res@ == bytes@,
    {
        Digest { bytes }
    }

    /// Borrows the exact 32 bytes.
    pub fn as_bytes(&self) -> (res: &[u8; 32])
        ensures
            res@ == self@,
    {
        &self.bytes
    }

    /// The digest has 32 bytes.
    pub proof fn lemma_len(&self)
        ensures
            self@.len() == 32,
    {
    }

    /// Renders `sha256:` and 64 lowercase hex digits.
    pub fn to_text(&self) -> (res: String)
        ensures
            res@ == spec_digest_text(self@),
    {
        let mut out = String::from_str("sha256:");
        proof {
            reveal_strlit("sha256:");
            assert(out@ =~= spec_digest_text(self@.subrange(0, 0)));
        }
        let mut i: usize = 0;
        while i < 32
            invariant
                i <= 32,
                self@.len() == 32,
                out@ == spec_digest_text(self@.subrange(0, i as int)),
            decreases 32 - i,
        {
            let byte = self.bytes[i];
            out.append(hex_text(byte / 16));
            out.append(hex_text(byte % 16));
            proof {
                let s = self@.subrange(0, i + 1);
                assert(s.subrange(0, i as int) =~= self@.subrange(0, i as int));
                assert(out@ =~= spec_digest_text(s));
            }
            i = i + 1;
        }
        assert(self@.subrange(0, 32) =~= self@);
        out
    }

    /// Parses canonical digest text, checking prefix, length, then hex digits.
    /// No trimming, case folding or normalization occurs.
    pub fn parse(value: &str) -> (res: Result<Digest, ParseDigestError>)
        ensures
            res matches Ok(d) ==> spec_parse_digest(value.spec_bytes()) == Ok::<Seq<u8>, ParseDigestError>(d@),
            res matches Err(e) ==> spec_parse_digest(value.spec_bytes()) == Err::<Seq<u8>, ParseDigestError>(e),
    {
        let t = value.as_bytes();
        let ghost tv = t@;
        if t.len() < 7 || !(t[0] == 0x73 && t[1] == 0x68 && t[2] == 0x61 && t[3] == 0x32 && t[4] == 0x35
            && t[5] == 0x36 && t[6] == 0x3a) {
            proof {
                if t.len() >= 7 && tv.subrange(0, 7) == spec_digest_prefix() {
                    assert(tv[0] == tv.subrange(0, 7)[0]);
                    assert(tv[1] == tv.subrange(0, 7)[1]);
                    assert(tv[2] == tv.subrange(0, 7)[2]);
                    assert(tv[3] == tv.subrange(0, 7)[3]);
                    assert(tv[4] == tv.subrange(0, 7)[4]);
                    assert(tv[5] == tv.subrange(0, 7)[5]);
                    assert(tv[6] == tv.subrange(0, 7)[6]);
                }
            }
            return Err(ParseDigestError::InvalidPrefix);
        }
        assert(tv.subrange(0, 7) =~= spec_digest_prefix());
        if t.len() != 71 {
            return Err(ParseDigestError::InvalidLength);
        }
        let mut bytes = [0u8; 32];
        let mut i: usize = 0;
        while i < 32
            invariant
                i <= 32,
                tv.len() == 71,
                t@ == tv,
                tv == value.spec_bytes(),
                tv.subrange(0, 7) == spec_digest_prefix(),
                bytes@.len() == 32,
                forall|k: int| 7 <= k < 7 + 2 * i ==> (#[trigger] spec_hex_digit(tv[k])) is Some,
                bytes@.subrange(0, i as int) == spec_unhex(tv.subrange(7, 7 + 2 * i)),
            decreases 32 - i,
        {
            let hi = hex_digit(t[7 + 2 * i]);
            let lo = hex_digit(t[8 + 2 * i]);
            match (hi, lo) {
                (Some(h), Some(l)) => {
                    let ghost old_bytes = bytes@;
                    let v: u8 = h * 16 + l;
                    bytes.set(i, v);
                    proof {
                        let u = tv.subrange(7, 7 + 2 * (i + 1));
                        assert(u.subrange(0, u.len() - 2) =~= tv.subrange(7, 7 + 2 * i));
                        assert(u[u.len() - 2] == tv[7 + 2 * i]);
                        assert(u[u.len() - 1] == tv[8 + 2 * i]);
                        assert(bytes@.subrange(0, i + 1) =~= old_bytes.subrange(0, i as int).push(v));
                        assert forall|k: int| 7 <= k < 7 + 2 * (i + 1) implies (#[trigger] spec_hex_digit(tv[k])) is Some by {
                            if k == 7 + 2 * i {
                            } else if k == 8 + 2 * i {
                            }
                        }
                    }
                },
                _ => {
                    proof {
                        if hi is None {
                            assert(spec_hex_digit(tv[7 + 2 * i]) is None);
                        } else {
                            assert(spec_hex_digit(tv[8 + 2 * i]) is None);
                        }
                    }
                    return Err(ParseDigestError::InvalidHex);
                },
            }
            i = i + 1;
        }
        assert(bytes@.subrange(0, 32) =~= bytes@);
        Ok(Digest { bytes })
    }
}

/// Text form and parsing are inverse: every digest's text parses back to it.
pub proof fn lemma_digest_text_roundtrip(b: Seq<u8>)
    requires
        b.len() == 32,
    ensures
        spec_parse_digest(spec_utf8(spec_digest_text(b))) == Ok::<Seq<u8>, ParseDigestError>(b),
{
    let chars = spec_digest_text(b);
    lemma_hex_ascii(b);
    assert(vstd::utf8::is_ascii_chars(chars));
    vstd::utf8::is_ascii_chars_encode_utf8(chars);
    let t = spec_utf8(chars);
    assert(t.subrange(0, 7) =~= spec_digest_prefix());
    lemma_unhex_hex(b, t);
}

proof fn lemma_hex_ascii(b: Seq<u8>)
    ensures
        spec_hex(b).len() == 2 * b.len(),
        forall|i: int| 0 <= i < spec_hex(b).len() ==> {
            let c = #[trigger] spec_hex(b)[i];
            ('0' <= c <= '9') || ('a' <= c <= 'f')
        },
        vstd::utf8::is_ascii_chars(spec_digest_text(b)),
    decreases b.len(),
{
    if b.len() > 0 {
        lemma_hex_ascii(b.subrange(0, b.len() - 1));
    }
    let chars = spec_digest_text(b);
    assert forall|i| 0 <= i < chars.len() implies '\0' <= #[trigger] chars[i] <= '\u{7f}' by {
        if i >= 7 {
            assert(chars[i] == spec_hex(b)[i - 7]);
        }
    }
}

proof fn lemma_unhex_hex(b: Seq<u8>, t: Seq<u8>)
    requires
        b.len() == 32,
        t == spec_utf8(spec_digest_text(b)),
        t.len() == 71,
        forall|i: int| 0 <= i < 71 ==> spec_digest_text(b)[i] as u8 == #[trigger] t[i],
    ensures
        forall|i: int| 7 <= i < 71 ==> (#[trigger] spec_hex_digit(t[i])) is Some,
        spec_unhex(t.subrange(7, 71)) == b,
{
    lemma_hex_prefix(b, 32, t);
    assert(b.subrange(0, 32) =~= b);
}

proof fn lemma_hex_prefix(b: Seq<u8>, n: int, t: Seq<u8>)
    requires
        0 <= n <= b.len() == 32,
        t.len() == 71,
        forall|i: int| 0 <= i < 71 ==> spec_digest_text(b)[i] as u8 == #[trigger] t[i],
    ensures
        forall|i: int| 7 <= i < 7 + 2 * n ==> (#[trigger] spec_hex_digit(t[i])) is Some,
        spec_unhex(t.subrange(7, 7 + 2 * n)) == b.subrange(0, n),
    decreases n,
{
    lemma_hex_ascii(b);
    if n > 0 {
        lemma_hex_prefix(b, n - 1, t);
        lemma_hex_of_prefix(b, n);
        let u = t.subrange(7, 7 + 2 * n);
        assert(u.subrange(0, u.len() - 2) =~= t.subrange(7, 7 + 2 * (n - 1)));
        let byte = b[n - 1];
        let hi = spec_hex(b)[2 * n - 2];
        let lo = spec_hex(b)[2 * n - 1];
        assert(spec_digest_text(b)[7 + 2 * n - 2] == hi);
        assert(spec_digest_text(b)[7 + 2 * n - 1] == lo);
        assert(hi == spec_hex_char((byte / 16) as nat));
        assert(lo == spec_hex_char((byte % 16) as nat));
        assert(b.subrange(0, n) =~= b.subrange(0, n - 1).push(byte));
    }
}

proof fn lemma_hex_of_prefix(b: Seq<u8>, n: int)
    requires
        1 <= n <= b.len(),
    ensures
        spec_hex(b)[2 * n - 2] == spec_hex_char((b[n - 1] / 16) as nat),
        spec_hex(b)[2 * n - 1] == spec_hex_char((b[n - 1] % 16) as nat),
    decreases b.len(),
{
    lemma_hex_ascii(b);
    if n < b.len() {
        let init = b.subrange(0, b.len() - 1);
        lemma_hex_of_prefix(init, n);
        lemma_hex_ascii(init);
    }
}

/// Computes SHA-256 of exactly the supplied bytes, with no domain label.
pub fn hash_bytes(bytes: &[u8]) -> (res: Digest)
    ensures
        res@ == spec_sha256(bytes@),
{
    Digest::from_bytes(sha256(bytes))
}

/// Computes SHA-256 of a value's deterministic CBOR encoding; codec errors
/// are returned unchanged and no digest is produced on failure.
pub fn hash_cbor(value: &Value, limits: &Limits) -> (res: Result<Digest, Error>)
    ensures
        res is Ok <==> limits.spec_valid() && spec_encode(*value).len() <= limits.max_document_bytes
            && spec_height(*value) <= limits.max_depth,
        res matches Ok(d) ==> d@ == spec_sha256(spec_encode(*value)),
        res matches Err(e) ==> if limits.spec_valid() {
            spec_encode_failure(e, spec_encode(*value).len() as int, spec_height(*value) as int, *limits)
        } else {
            e == crate::cbor::error::spec_plain_error(ErrorKind::InvalidLimits)
        },
        limits.spec_valid() ==> match crate::cbor::encode::spec_encode_error(*value, *limits) {
            None => res is Ok,
            Some(k) => res matches Err(e) && e.kind == k && e.offset_spec() is None,
        },
{
    let bytes = encode(value, limits)?;
    Ok(hash_bytes(bytes.as_slice()))
}

/// Closed record-content digest domains.
#[derive(Clone, Copy, Debug, PartialEq, Eq, Structural)]
pub enum RecordKind {
    /// Root, task or loop-body scope definition.
    Scope,
    /// Complete node definition.
    Node,
    /// Prompt-template definition.
    Template,
    /// MCP binding definition.
    Binding,
    /// Compound MCP server identity.
    Server,
}

/// The domain label `htlk.<kind>/0.1\n`.
pub open spec fn spec_record_prefix(kind: RecordKind) -> Seq<u8> {
    spec_utf8(match kind {
        RecordKind::Scope => "htlk.scope/0.1\n"@,
        RecordKind::Node => "htlk.node/0.1\n"@,
        RecordKind::Template => "htlk.template/0.1\n"@,
        RecordKind::Binding => "htlk.binding/0.1\n"@,
        RecordKind::Server => "htlk.server/0.1\n"@,
    })
}

/// Appends the domain label of a record kind.
pub fn push_record_prefix(out: &mut Vec<u8>, kind: RecordKind)
    ensures
        final(out)@ == old(out)@ + spec_record_prefix(kind),
{
    let label = match kind {
        RecordKind::Scope => "htlk.scope/0.1\n",
        RecordKind::Node => "htlk.node/0.1\n",
        RecordKind::Template => "htlk.template/0.1\n",
        RecordKind::Binding => "htlk.binding/0.1\n",
        RecordKind::Server => "htlk.server/0.1\n",
    };
    crate::cbor::header::append_bytes(out, label.as_bytes());
}

/// Hashes a canonical record under its version-0.1 domain:
/// `SHA256(UTF8("htlk.<kind>/0.1\n") || deterministic_cbor(record))`.
pub fn record_digest(kind: RecordKind, record: &Value, limits: &Limits) -> (res: Result<Digest, Error>)
    ensures
        res is Ok <==> limits.spec_valid() && spec_encode(*record).len() <= limits.max_document_bytes
            && spec_height(*record) <= limits.max_depth,
        res matches Ok(d) ==> d@ == spec_sha256(spec_record_prefix(kind) + spec_encode(*record)),
        res matches Err(e) ==> if limits.spec_valid() {
            spec_encode_failure(e, spec_encode(*record).len() as int, spec_height(*record) as int, *limits)
        } else {
            e == crate::cbor::error::spec_plain_error(ErrorKind::InvalidLimits)
        },
        limits.spec_valid() ==> match crate::cbor::encode::spec_encode_error(*record, *limits) {
            None => res is Ok,
            Some(k) => res matches Err(e) && e.kind == k && e.offset_spec() is None,
        },
{
    let bytes = encode(record, limits)?;
    let mut preimage: Vec<u8> = Vec::new();
    push_record_prefix(&mut preimage, kind);
    crate::cbor::header::append_bytes(&mut preimage, bytes.as_slice());
    assert(preimage@ =~= spec_record_prefix(kind) + spec_encode(*record));
    Ok(hash_bytes(preimage.as_slice()))
}

} // verus!

//! Pieces of canonical documents that stand on their own: the document
//! error vocabulary, qualified graph names, and schema retrieval roots.

use vstd::prelude::*;

use crate::cbor::error::{Error, LimitKind};
use crate::digest::ParseDigestError;
use crate::envelope::EnvelopeError;
use crate::expression::ExpressionError;
use crate::graph::GraphRecordError;
use crate::identifier::spec_is_identifier;
use crate::json::JsonError;
use crate::metadata::MetadataError;
use crate::types::model::TypeError;

verus! {

/// A canonical document representation or resource failure; input contents
/// are never retained.
#[derive(Debug)]
#[non_exhaustive]
pub enum DocumentError {
    /// Codec failure.
    Codec(Error),
    /// Envelope failure.
    Envelope(EnvelopeError),
    /// Graph record failure.
    Graph(GraphRecordError),
    /// Metadata record failure.
    Metadata(MetadataError),
    /// Expression or template failure.
    Expression(ExpressionError),
    /// Type failure.
    Type(TypeError),
    /// Invalid digest spelling.
    Digest(ParseDigestError),
    /// Invalid canonical external JSON.
    Json(JsonError),
    /// Incorrect shape at a fixed site.
    InvalidShape(&'static str),
    /// Missing required field.
    MissingField(&'static str),
    /// Unknown field.
    UnknownField,
    /// Unsupported document version.
    UnsupportedVersion,
    /// The graph name is not dot-separated identifiers.
    InvalidGraphId,
    /// An asserted record key does not match its identity.
    DigestMismatch(&'static str),
    /// A retrieval root is not an absolute, fragment-free URI.
    InvalidSchemaUri,
    /// Invalid URI template syntax.
    InvalidUriTemplate {
        /// Byte offset in the template.
        offset: usize,
    },
    /// A resource ceiling was exceeded.
    LimitExceeded {
        /// Exhausted resource.
        limit: LimitKind,
        /// Configured maximum.
        maximum: usize,
    },
    /// Storage reservation failed.
    AllocationFailed,
}

/// The first position at or after `i` that holds a dot, or the length.
pub open spec fn spec_next_dot(b: Seq<u8>, i: int) -> int
    decreases b.len() - i,
{
    if i >= b.len() {
        b.len() as int
    } else if b[i] == 0x2e {
        i
    } else {
        spec_next_dot(b, i + 1)
    }
}

/// The next dot is no earlier than where the search starts.
pub proof fn lemma_next_dot_bounds(b: Seq<u8>, i: int)
    requires
        0 <= i,
    ensures
        i <= spec_next_dot(b, i) || (i > b.len() && spec_next_dot(b, i) == b.len()),
        spec_next_dot(b, i) <= b.len() || i > b.len(),
        spec_next_dot(b, i) < b.len() ==> b[spec_next_dot(b, i)] == 0x2e,
        forall|k: int| i <= k < spec_next_dot(b, i) ==> b[k] != 0x2e,
    decreases b.len() - i,
{
    if i < b.len() && b[i] != 0x2e {
        lemma_next_dot_bounds(b, i + 1);
    }
}

/// Whether every dot-separated segment from `i` on is an identifier.
pub open spec fn spec_segments_ok(b: Seq<u8>, i: int) -> bool
    decreases b.len() - i,
{
    if i < 0 || i > b.len() {
        false
    } else {
        let e = spec_next_dot(b, i);
        proof {
            lemma_next_dot_bounds(b, i);
        }
        spec_is_identifier(b.subrange(i, e)) && (e >= b.len() || spec_segments_ok(b, e + 1))
    }
}

/// Whether a graph name is identifiers joined by dots.
pub open spec fn spec_graph_id_ok(g: Seq<char>) -> bool {
    spec_segments_ok(crate::cbor::value::spec_utf8(g), 0)
}

/// Whether the bytes from `s` to `e` spell an identifier.
fn identifier_bytes(b: &[u8], s: usize, e: usize) -> (res: bool)
    requires
        s <= e <= b@.len(),
    ensures
        res == spec_is_identifier(b@.subrange(s as int, e as int)),
{
    let ghost t = b@.subrange(s as int, e as int);
    if s == e {
        return false;
    }
    if !(0x61 <= b[s] && b[s] <= 0x7a) {
        return false;
    }
    if b[e - 1] == 0x5f {
        return false;
    }
    let mut i: usize = s + 1;
    while i < e
        invariant
            s < i <= e <= b@.len(),
            t == b@.subrange(s as int, e as int),
            forall|k: int| 0 < k < i - s ==> crate::identifier::spec_is_lower_or_digit(#[trigger] t[k]) || t[k] == 0x5f,
            forall|k: int| 0 < k < i - s && k + 1 < e - s && #[trigger] t[k] == 0x5f ==> t[k + 1] != 0x5f,
        decreases e - i,
    {
        let c = b[i];
        let ok = (0x61 <= c && c <= 0x7a) || (0x30 <= c && c <= 0x39) || c == 0x5f;
        if !ok {
            proof { assert(t[i - s] == c); }
            return false;
        }
        if c == 0x5f && i + 1 < e && b[i + 1] == 0x5f {
            proof { assert(t[i - s] == c && t[i - s + 1] == b@[i + 1]); }
            return false;
        }
        proof {
            assert(t[i - s] == c);
            if i + 1 < e {
                assert(t[i - s + 1] == b@[i + 1]);
            }
        }
        i = i + 1;
    }
    true
}

/// Checks that a graph name is identifiers joined by dots.
pub fn check_graph_id(g: &str) -> (res: Result<(), DocumentError>)
    ensures
        res is Ok <==> spec_graph_id_ok(g@),
        res matches Err(e) ==> e == DocumentError::InvalidGraphId,
{
    let b = g.as_bytes();
    let ghost bs = b@;
    let mut i: usize = 0;
    while i <= b.len()
        invariant
            bs == b@,
            bs == crate::cbor::value::spec_utf8(g@),
            i <= bs.len() + 1,
            spec_segments_ok(bs, 0) == spec_segments_ok(bs, i as int),
        decreases bs.len() + 1 - i,
    {
        let mut e: usize = i;
        while e < b.len() && b[e] != 0x2e
            invariant
                i <= e <= bs.len(),
                bs == b@,
                spec_next_dot(bs, i as int) == spec_next_dot(bs, e as int),
            decreases bs.len() - e,
        {
            e = e + 1;
        }
        proof {
            lemma_next_dot_bounds(bs, i as int);
        }
        if !identifier_bytes(b, i, e) {
            return Err(DocumentError::InvalidGraphId);
        }
        if e >= b.len() {
            return Ok(());
        }
        i = e + 1;
    }
    proof {
        assert(!spec_segments_ok(bs, i as int));
    }
    Err(DocumentError::InvalidGraphId)
}

} // verus!

verus! {

use crate::cbor::value::spec_utf8;
use crate::json::spec_hex_value;

/// Whether `url::Url::parse` accepts a text.
pub uninterp spec fn spec_url_parses(uri: Seq<char>) -> bool;

/// Calls `url::Url::parse` and keeps only whether it accepted the text.
#[verifier::external_body]
fn schema_uri_ok(uri: &str) -> (res: bool)
    ensures
        res == spec_url_parses(uri@),
{
    url::Url::parse(uri).is_ok()
}

/// Whether a byte may stand in a schema retrieval root: ASCII, no
/// whitespace or control byte, and none of `"<>\^`{|}`.
pub open spec fn spec_uri_byte_ok(c: u8) -> bool {
    &&& c < 0x80
    &&& !(c < 0x20 || c == 0x7f)
    &&& c != 0x20
    &&& c != 0x22 && c != 0x3c && c != 0x3e && c != 0x5c && c != 0x5e && c != 0x60
    &&& c != 0x7b && c != 0x7c && c != 0x7d
}

/// Whether a text is a schema retrieval root: a URL that parses, with no
/// fragment (nothing from a `#` on), only allowed bytes, and every `%`
/// followed by two hex digits.
pub open spec fn spec_schema_uri_ok(uri: Seq<char>) -> bool {
    spec_url_parses(uri) && forall|i: int| 0 <= i < spec_utf8(uri).len() ==> #[trigger] spec_uri_position_ok(spec_utf8(uri), i)
}

/// Whether the byte at `i` may stand where it is: no `#`, an allowed byte,
/// and a `%` followed by two hex digits.
pub open spec fn spec_uri_position_ok(b: Seq<u8>, i: int) -> bool {
    &&& b[i] != 0x23
    &&& spec_uri_byte_ok(b[i])
    &&& b[i] == 0x25 ==> i + 2 < b.len() && spec_hex_value(b[i + 1]) is Some && spec_hex_value(b[i + 2]) is Some
}

/// Checks a schema retrieval root.
pub fn validate_uri(uri: &str) -> (res: Result<(), DocumentError>)
    ensures
        res is Ok <==> spec_schema_uri_ok(uri@),
        res matches Err(e) ==> e == DocumentError::InvalidSchemaUri,
{
    if !schema_uri_ok(uri) {
        return Err(DocumentError::InvalidSchemaUri);
    }
    let b = uri.as_bytes();
    let ghost bs = spec_utf8(uri@);
    assert(b@ == bs);
    let mut i: usize = 0;
    while i < b.len()
        invariant
            b@ == bs,
            bs == spec_utf8(uri@),
            spec_url_parses(uri@),
            i <= bs.len(),
            forall|k: int| 0 <= k < i ==> #[trigger] spec_uri_position_ok(bs, k),
        decreases bs.len() - i,
    {
        let c = b[i];
        let ok = c < 0x80 && !(c < 0x20 || c == 0x7f) && c != 0x20 && c != 0x22 && c != 0x3c && c != 0x3e
            && c != 0x5c && c != 0x5e && c != 0x60 && c != 0x7b && c != 0x7c && c != 0x7d && c != 0x23;
        if !ok {
            proof { assert(!spec_uri_position_ok(bs, i as int)); }
            return Err(DocumentError::InvalidSchemaUri);
        }
        if c == 0x25 {
            let hex_ok = b.len() - i > 2 && crate::json::is_hex_digit(b[i + 1]) && crate::json::is_hex_digit(b[i + 2]);
            if !hex_ok {
                proof { assert(!spec_uri_position_ok(bs, i as int)); }
                return Err(DocumentError::InvalidSchemaUri);
            }
        }
        proof { assert(spec_uri_position_ok(bs, i as int)); }
        i = i + 1;
    }
    Ok(())
}

} // verus!

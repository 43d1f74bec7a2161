//! Executable envelopes: an opaque payload under a fixed format and version,
//! with a SHA-256 fingerprint of the payload under a domain prefix.

use vstd::prelude::*;
use vstd::string::*;

use crate::cbor::encode::{encode, spec_fits};
use crate::cbor::error::{Error, ErrorKind};
use crate::cbor::limits::Limits;
use crate::cbor::map::spec_find;
use crate::cbor::value::{spec_encode, spec_utf8, Value, ValueMap};
use crate::digest::{hash_bytes, spec_digest_text, spec_parse_digest, spec_sha256, Digest, ParseDigestError};
use crate::metadata::{spec_closed, MetadataError};
use crate::text::same_text;

verus! {

/// The supported envelope format.
pub const EXECUTABLE_FORMAT: &'static str = "htlk.executable.graph";

/// The supported envelope version.
pub const EXECUTABLE_VERSION: &'static str = "0.1";

/// A failure to build, encode or read an envelope. Field names are fixed
/// schema names; payload contents never appear.
#[derive(Debug)]
#[non_exhaustive]
pub enum EnvelopeError {
    /// A codec failure.
    Codec(Error),
    /// The decoded value is not a map.
    ExpectedRecord,
    /// The record holds a field outside the envelope schema.
    UnknownField,
    /// A required field is missing.
    MissingField(&'static str),
    /// A field has the wrong type.
    InvalidFieldType(&'static str),
    /// The format is not the supported one.
    UnsupportedFormat,
    /// The version is not the supported one.
    UnsupportedVersion,
    /// The fingerprint is not digest text.
    InvalidFingerprint(ParseDigestError),
    /// The fingerprint does not match the payload.
    FingerprintMismatch,
}

/// The bytes hashed before the payload.
pub open spec fn spec_fingerprint_prefix() -> Seq<u8> {
    spec_utf8("htlk.executable.graph/0.1\n"@)
}

/// The fingerprint of a payload: SHA-256 of the prefix and the payload bytes.
pub open spec fn spec_fingerprint(payload: Seq<u8>) -> Seq<u8> {
    spec_sha256(spec_fingerprint_prefix() + payload)
}

/// The fields of an envelope, in the order their presence and types are checked.
pub open spec fn spec_envelope_fields() -> Seq<&'static str> {
    seq!["fingerprint", "format", "payload", "version"]
}

/// Checking a well-typed envelope's format, version and fingerprint.
pub open spec fn spec_check_envelope(fingerprint: Seq<char>, format: Seq<char>, payload: Seq<u8>, version: Seq<char>)
    -> Result<(Seq<u8>, Seq<u8>), EnvelopeError> {
    if format != EXECUTABLE_FORMAT@ {
        Err(EnvelopeError::UnsupportedFormat)
    } else if version != EXECUTABLE_VERSION@ {
        Err(EnvelopeError::UnsupportedVersion)
    } else {
        match spec_parse_digest(spec_utf8(fingerprint)) {
            Err(e) => Err(EnvelopeError::InvalidFingerprint(e)),
            Ok(d) => if d != spec_fingerprint(payload) {
                Err(EnvelopeError::FingerprintMismatch)
            } else {
                Ok((payload, d))
            },
        }
    }
}

/// Reading an envelope record: a map of exactly the four fields, each of its
/// type, with the supported format and version and a matching fingerprint.
/// The result is the payload and the fingerprint.
pub open spec fn spec_parse_envelope(v: Value) -> Result<(Seq<u8>, Seq<u8>), EnvelopeError> {
    match spec_closed(v, "envelope", spec_envelope_fields()) {
        Err(MetadataError::UnknownField(_)) => Err(EnvelopeError::UnknownField),
        Err(MetadataError::MissingField(f)) => Err(EnvelopeError::MissingField(f)),
        Err(_) => Err(EnvelopeError::ExpectedRecord),
        Ok(es) => match spec_find(es, "fingerprint"@) {
            Some(Value::Text(fp)) => match spec_find(es, "format"@) {
                Some(Value::Text(fmt)) => match spec_find(es, "payload"@) {
                    Some(Value::Bytes(p)) => match spec_find(es, "version"@) {
                        Some(Value::Text(ver)) => spec_check_envelope(fp@, fmt@, p@, ver@),
                        _ => Err(EnvelopeError::InvalidFieldType("version")),
                    },
                    _ => Err(EnvelopeError::InvalidFieldType("payload")),
                },
                _ => Err(EnvelopeError::InvalidFieldType("format")),
            },
            _ => Err(EnvelopeError::InvalidFieldType("fingerprint")),
        },
    }
}

/// `v` is the canonical record of the envelope with payload `p` and
/// fingerprint `fp`: its fields in canonical key order.
pub open spec fn spec_envelope_record(v: Value, p: Seq<u8>, fp: Seq<u8>) -> bool {
    &&& v matches Value::Object(m)
    &&& m.entries@.len() == 4
    &&& m.entries@[0].0@ == "format"@
    &&& (m.entries@[0].1 matches Value::Text(t0) && t0@ == EXECUTABLE_FORMAT@)
    &&& m.entries@[1].0@ == "payload"@
    &&& (m.entries@[1].1 matches Value::Bytes(b) && b@ == p)
    &&& m.entries@[2].0@ == "version"@
    &&& (m.entries@[2].1 matches Value::Text(t2) && t2@ == EXECUTABLE_VERSION@)
    &&& m.entries@[3].0@ == "fingerprint"@
    &&& (m.entries@[3].1 matches Value::Text(t3) && t3@ == spec_digest_text(fp))
}

/// Hashes the prefix and the payload.
fn fingerprint_payload(payload: &[u8]) -> (res: Digest)
    ensures
        res@ == spec_fingerprint(payload@),
{
    let prefix = "htlk.executable.graph/0.1\n".as_bytes();
    let mut buf: Vec<u8> = Vec::new();
    let mut i: usize = 0;
    while i < prefix.len()
        invariant
            i <= prefix@.len(),
            buf@ == prefix@.subrange(0, i as int),
        decreases prefix@.len() - i,
    {
        buf.push(prefix[i]);
        proof { assert(buf@ =~= prefix@.subrange(0, i + 1)); }
        i = i + 1;
    }
    let mut j: usize = 0;
    while j < payload.len()
        invariant
            i == prefix@.len(),
            j <= payload@.len(),
            buf@ == prefix@ + payload@.subrange(0, j as int),
        decreases payload@.len() - j,
    {
        buf.push(payload[j]);
        proof { assert(buf@ =~= prefix@ + payload@.subrange(0, j + 1)); }
        j = j + 1;
    }
    proof {
        assert(prefix@ =~= prefix@.subrange(0, i as int));
        assert(payload@ =~= payload@.subrange(0, j as int));
        assert(buf@ =~= spec_fingerprint_prefix() + payload@);
    }
    hash_bytes(buf.as_slice())
}

/// An envelope whose fingerprint matches its payload. The payload is opaque:
/// graph validity is checked elsewhere.
#[derive(Debug)]
pub struct ExecutableEnvelope {
    payload: Vec<u8>,
    fingerprint: Digest,
}

impl ExecutableEnvelope {
    #[verifier::type_invariant]
    spec fn matches(&self) -> bool {
        self.fingerprint@ == spec_fingerprint(self.payload@)
    }

    /// The payload bytes.
    pub closed spec fn spec_payload(&self) -> Seq<u8> {
        self.payload@
    }

    /// The fingerprint bytes.
    pub closed spec fn spec_fingerprint(&self) -> Seq<u8> {
        self.fingerprint@
    }

    /// The supported format.
    pub fn format(&self) -> (res: &'static str)
        ensures
            res@ == EXECUTABLE_FORMAT@,
    {
        EXECUTABLE_FORMAT
    }

    /// The supported version.
    pub fn version(&self) -> (res: &'static str)
        ensures
            res@ == EXECUTABLE_VERSION@,
    {
        EXECUTABLE_VERSION
    }

    /// The verified fingerprint.
    pub fn fingerprint(&self) -> (res: Digest)
        ensures
            res@ == self.spec_fingerprint(),
            res@ == spec_fingerprint(self.spec_payload()),
    {
        proof {
            use_type_invariant(self);
        }
        self.fingerprint
    }

    /// The payload bytes, unmodified.
    pub fn payload(&self) -> (res: &[u8])
        ensures
            res@ == self.spec_payload(),
    {
        self.payload.as_slice()
    }

    /// The canonical record.
    fn record(&self) -> (res: Value)
        ensures
            spec_envelope_record(res, self.spec_payload(), self.spec_fingerprint()),
    {
        let mut p: Vec<u8> = Vec::new();
        let mut i: usize = 0;
        while i < self.payload.len()
            invariant
                i <= self.payload@.len(),
                p@ == self.payload@.subrange(0, i as int),
            decreases self.payload@.len() - i,
        {
            p.push(self.payload[i]);
            proof { assert(p@ =~= self.payload@.subrange(0, i + 1)); }
            i = i + 1;
        }
        proof { assert(p@ =~= self.payload@); }
        let mut entries: Vec<(String, Value)> = Vec::new();
        entries.push((String::from_str("format"), Value::Text(String::from_str(EXECUTABLE_FORMAT))));
        entries.push((String::from_str("payload"), Value::Bytes(p)));
        entries.push((String::from_str("version"), Value::Text(String::from_str(EXECUTABLE_VERSION))));
        entries.push((String::from_str("fingerprint"), Value::Text(self.fingerprint.to_text())));
        Value::Object(ValueMap { entries })
    }

    /// Encodes the canonical envelope record.
    pub fn encode(&self, limits: &Limits) -> (res: Result<Vec<u8>, EnvelopeError>)
        ensures
            !limits.spec_valid() ==> (res matches Err(EnvelopeError::Codec(e)) && e.kind == ErrorKind::InvalidLimits),
            exists|v: Value| #[trigger] spec_envelope_record(v, self.spec_payload(), self.spec_fingerprint())
                && (limits.spec_valid() && spec_fits(v, *limits) <==> res is Ok)
                && (res matches Ok(b) ==> b@ == spec_encode(v)),
            res matches Err(x) ==> x is Codec,
    {
        let v = self.record();
        match encode(&v, limits) {
            Ok(b) => Ok(b),
            Err(e) => Err(EnvelopeError::Codec(e)),
        }
    }

    /// Makes an envelope for `payload` and fingerprints it: the payload must
    /// fit the limits on its own before it is hashed, and the whole record
    /// must fit too.
    pub fn new(payload: Vec<u8>, limits: &Limits) -> (res: Result<ExecutableEnvelope, EnvelopeError>)
        ensures
            !limits.spec_valid() ==> (res matches Err(EnvelopeError::Codec(e)) && e.kind == ErrorKind::InvalidLimits),
            limits.spec_valid() && !spec_fits(Value::Bytes(payload), *limits) ==> res matches Err(EnvelopeError::Codec(_)),
            limits.spec_valid() && spec_fits(Value::Bytes(payload), *limits) ==> exists|v: Value|
                #[trigger] spec_envelope_record(v, payload@, spec_fingerprint(payload@))
                && (spec_fits(v, *limits) <==> res is Ok),
            res matches Ok(e) ==> e.spec_payload() == payload@ && e.spec_fingerprint() == spec_fingerprint(payload@),
            res matches Err(x) ==> x is Codec,
    {
        if let Err(e) = limits.validate() {
            return Err(EnvelopeError::Codec(e));
        }
        let ghost unsorted = payload;
        let pv = Value::Bytes(payload);
        if let Err(e) = encode(&pv, limits) {
            return Err(EnvelopeError::Codec(e));
        }
        let payload = match pv {
            Value::Bytes(b) => b,
            _ => Vec::new(),
        };
        let fingerprint = fingerprint_payload(payload.as_slice());
        let envelope = ExecutableEnvelope { payload, fingerprint };
        envelope.encode(limits)?;
        Ok(envelope)
    }
}

/// Reads an envelope record's fields.
fn parse_envelope(v: &Value) -> (res: Result<ExecutableEnvelope, EnvelopeError>)
    ensures
        match spec_parse_envelope(*v) {
            Ok((p, fp)) => res matches Ok(e) && e.spec_payload() == p && e.spec_fingerprint() == fp,
            Err(x) => res == Err::<ExecutableEnvelope, EnvelopeError>(x),
        },
{
    let fields: [&'static str; 4] = ["fingerprint", "format", "payload", "version"];
    assert(fields@ == spec_envelope_fields());
    let m = match crate::metadata::closed(v, "envelope", &fields) {
        Ok(m) => m,
        Err(MetadataError::UnknownField(_)) => return Err(EnvelopeError::UnknownField),
        Err(MetadataError::MissingField(f)) => return Err(EnvelopeError::MissingField(f)),
        Err(_) => return Err(EnvelopeError::ExpectedRecord),
    };
    let fp = match m.get("fingerprint") {
        Some(Value::Text(t)) => t,
        _ => return Err(EnvelopeError::InvalidFieldType("fingerprint")),
    };
    let fmt = match m.get("format") {
        Some(Value::Text(t)) => t,
        _ => return Err(EnvelopeError::InvalidFieldType("format")),
    };
    let p = match m.get("payload") {
        Some(Value::Bytes(b)) => b,
        _ => return Err(EnvelopeError::InvalidFieldType("payload")),
    };
    let ver = match m.get("version") {
        Some(Value::Text(t)) => t,
        _ => return Err(EnvelopeError::InvalidFieldType("version")),
    };
    if !same_text(fmt.as_str(), EXECUTABLE_FORMAT) {
        return Err(EnvelopeError::UnsupportedFormat);
    }
    if !same_text(ver.as_str(), EXECUTABLE_VERSION) {
        return Err(EnvelopeError::UnsupportedVersion);
    }
    let d = match Digest::parse(fp.as_str()) {
        Ok(d) => d,
        Err(e) => return Err(EnvelopeError::InvalidFingerprint(e)),
    };
    let computed = fingerprint_payload(p.as_slice());
    if !(d == computed) {
        return Err(EnvelopeError::FingerprintMismatch);
    }
    let mut payload: Vec<u8> = Vec::new();
    let mut i: usize = 0;
    while i < p.len()
        invariant
            i <= p@.len(),
            payload@ == p@.subrange(0, i as int),
        decreases p@.len() - i,
    {
        payload.push(p[i]);
        proof { assert(payload@ =~= p@.subrange(0, i + 1)); }
        i = i + 1;
    }
    proof { assert(payload@ =~= p@); }
    Ok(ExecutableEnvelope { payload, fingerprint: d })
}

impl ExecutableEnvelope {
    /// Decodes one canonical envelope, checks its schema, format and version,
    /// and verifies its fingerprint over the exact payload bytes.
    pub fn decode(bytes: &[u8], limits: &Limits) -> (res: Result<ExecutableEnvelope, EnvelopeError>)
        ensures
            !limits.spec_valid() ==> res matches Err(EnvelopeError::Codec(_)),
            res matches Ok(e) ==> exists|w: Value| #[trigger] spec_encode(w) == bytes@
                && spec_parse_envelope(w) == Ok::<(Seq<u8>, Seq<u8>), EnvelopeError>((e.spec_payload(), e.spec_fingerprint())),
            limits.spec_valid() && (exists|x: Value| #[trigger] spec_encode(x) == bytes@
                && crate::cbor::value::spec_wf(x) && crate::cbor::value::spec_height(x) <= limits.max_depth
                && bytes@.len() <= limits.max_document_bytes) ==> exists|w: Value|
                #[trigger] spec_encode(w) == bytes@ && crate::cbor::value::spec_wf(w)
                && (match spec_parse_envelope(w) {
                    Ok((p, fp)) => res matches Ok(e) && e.spec_payload() == p && e.spec_fingerprint() == fp,
                    Err(x) => res == Err::<ExecutableEnvelope, EnvelopeError>(x),
                }),
    {
        let v = match crate::cbor::decode::decode(bytes, limits) {
            Ok(v) => v,
            Err(e) => return Err(EnvelopeError::Codec(e)),
        };
        proof { assert(spec_encode(v) == bytes@ && crate::cbor::value::spec_wf(v)); }
        parse_envelope(&v)
    }
}

} // verus!

verus! {

use crate::metadata::{spec_first_missing, spec_known_field};

/// Reading back an envelope record gives its payload and fingerprint: the
/// record of a payload under its own 32-byte fingerprint reads as exactly
/// that payload and fingerprint.
pub proof fn lemma_envelope_read_back(p: Seq<u8>, fp: Seq<u8>, v: Value)
    requires
        fp == spec_fingerprint(p),
        fp.len() == 32,
        spec_envelope_record(v, p, fp),
    ensures
        spec_parse_envelope(v) == Ok::<(Seq<u8>, Seq<u8>), EnvelopeError>((p, fp)),
{
    reveal_strlit("format");
    reveal_strlit("payload");
    reveal_strlit("version");
    reveal_strlit("fingerprint");
    let fields = spec_envelope_fields();
    let m = match v {
        Value::Object(m) => m,
        _ => arbitrary(),
    };
    let es = m.entries@;
    assert("format"@.len() == 6 && "payload"@.len() == 7 && "version"@.len() == 7 && "fingerprint"@.len() == 11);
    assert("payload"@[0] == 'p' && "version"@[0] == 'v');
    assert forall|j: int| 0 <= j < es.len() implies spec_known_field(fields, (#[trigger] es[j]).0@) by {
        if j == 0 {
            assert(fields[1]@ == es[j].0@);
        } else if j == 1 {
            assert(fields[2]@ == es[j].0@);
        } else if j == 2 {
            assert(fields[3]@ == es[j].0@);
        } else {
            assert(fields[0]@ == es[j].0@);
        }
    }
    reveal_with_fuel(spec_find, 5);
    assert(es.drop_first().drop_first().drop_first()[0] == es[3]);
    assert(es.drop_first().drop_first()[0] == es[2]);
    assert(es.drop_first()[0] == es[1]);
    assert(spec_find(es, "fingerprint"@) == Some(es[3].1));
    assert(spec_find(es, "format"@) == Some(es[0].1));
    assert(spec_find(es, "payload"@) == Some(es[1].1));
    assert(spec_find(es, "version"@) == Some(es[2].1));
    reveal_with_fuel(spec_first_missing, 5);
    assert(spec_first_missing(es, fields, 0) is None);
    crate::digest::lemma_digest_text_roundtrip(fp);
}

} // verus!

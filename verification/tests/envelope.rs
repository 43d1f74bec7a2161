use htlk_executable::cbor::limits::Limits;
use htlk_executable::cbor::value::{Value, ValueMap};
use htlk_executable::digest::hash_bytes;
use htlk_executable::envelope::{EnvelopeError, ExecutableEnvelope, EXECUTABLE_FORMAT, EXECUTABLE_VERSION};

fn record(entries: Vec<(&str, Value)>) -> Vec<u8> {
    let m = ValueMap::try_from_entries(entries.into_iter().map(|(k, v)| (k.to_string(), v)).collect()).unwrap();
    htlk_executable::cbor::encode::encode(&Value::Object(m), &Limits::default()).unwrap()
}

fn t(s: &str) -> Value {
    Value::Text(s.to_string())
}

#[test]
fn envelopes_round_trip_with_their_fingerprint() {
    let l = Limits::default();
    let e = ExecutableEnvelope::new(vec![1, 2, 3], &l).unwrap();
    let mut preimage = b"htlk.executable.graph/0.1\n".to_vec();
    preimage.extend_from_slice(&[1, 2, 3]);
    assert_eq!(e.fingerprint(), hash_bytes(&preimage));
    assert_eq!(e.format(), EXECUTABLE_FORMAT);
    assert_eq!(e.version(), EXECUTABLE_VERSION);
    let bytes = e.encode(&l).unwrap();
    let back = ExecutableEnvelope::decode(&bytes, &l).unwrap();
    assert_eq!(back.payload(), &[1, 2, 3]);
    assert_eq!(back.fingerprint(), e.fingerprint());
    assert_eq!(back.encode(&l).unwrap(), bytes);
    let empty = ExecutableEnvelope::new(vec![], &l).unwrap();
    assert!(empty.payload().is_empty());
}

#[test]
fn envelope_records_are_checked() {
    let l = Limits::default();
    let e = ExecutableEnvelope::new(vec![9], &l).unwrap();
    let fp = e.fingerprint().to_text();
    let good = |fmt: &str, ver: &str, fp: &str, payload: Vec<u8>| {
        record(vec![("format", t(fmt)), ("version", t(ver)), ("fingerprint", t(fp)), ("payload", Value::Bytes(payload))])
    };
    assert!(ExecutableEnvelope::decode(&good(EXECUTABLE_FORMAT, "0.1", &fp, vec![9]), &l).is_ok());
    assert!(matches!(ExecutableEnvelope::decode(&good("other", "0.1", &fp, vec![9]), &l),
        Err(EnvelopeError::UnsupportedFormat)));
    assert!(matches!(ExecutableEnvelope::decode(&good(EXECUTABLE_FORMAT, "0.2", &fp, vec![9]), &l),
        Err(EnvelopeError::UnsupportedVersion)));
    assert!(matches!(ExecutableEnvelope::decode(&good(EXECUTABLE_FORMAT, "0.1", &fp, vec![8]), &l),
        Err(EnvelopeError::FingerprintMismatch)));
    assert!(matches!(ExecutableEnvelope::decode(&good(EXECUTABLE_FORMAT, "0.1", "sha256:zz", vec![9]), &l),
        Err(EnvelopeError::InvalidFingerprint(_))));
    let missing = record(vec![("format", t(EXECUTABLE_FORMAT)), ("version", t("0.1")), ("payload", Value::Bytes(vec![]))]);
    assert!(matches!(ExecutableEnvelope::decode(&missing, &l), Err(EnvelopeError::MissingField("fingerprint"))));
    let typed = record(vec![("format", t(EXECUTABLE_FORMAT)), ("version", t("0.1")), ("fingerprint", t(&fp)),
        ("payload", t("not bytes"))]);
    assert!(matches!(ExecutableEnvelope::decode(&typed, &l), Err(EnvelopeError::InvalidFieldType("payload"))));
    let extra = record(vec![("format", t(EXECUTABLE_FORMAT)), ("version", t("0.1")), ("fingerprint", t(&fp)),
        ("payload", Value::Bytes(vec![9])), ("extra", Value::Null)]);
    assert!(matches!(ExecutableEnvelope::decode(&extra, &l), Err(EnvelopeError::UnknownField)));
    let not_map = htlk_executable::cbor::encode::encode(&Value::Null, &l).unwrap();
    assert!(matches!(ExecutableEnvelope::decode(&not_map, &l), Err(EnvelopeError::ExpectedRecord)));
}

#[test]
fn envelope_payload_must_fit() {
    let small = Limits { max_document_bytes: 16, ..Limits::default() };
    assert!(matches!(ExecutableEnvelope::new(vec![0; 64], &small), Err(EnvelopeError::Codec(_))));
    assert!(matches!(ExecutableEnvelope::new(vec![0; 4], &small), Err(EnvelopeError::Codec(_))));
}

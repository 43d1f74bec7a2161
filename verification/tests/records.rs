use htlk_executable::cbor::encode::encode;
use htlk_executable::cbor::error::{ErrorKind, LimitKind};
use htlk_executable::cbor::limits::Limits;
use htlk_executable::cbor::value::{FiniteFloat, Value, ValueMap};
use htlk_executable::digest::{hash_bytes, hash_cbor, record_digest, Digest, ParseDigestError, RecordKind};
use htlk_executable::identifier::{Identifier, ParseIdentifierError};
use htlk_executable::record_accounting::{add, header_size, EncodingLimitError, RecordAccounting};

#[test]
fn record_accounting_conversion_arithmetic_is_checked() {
    assert_eq!(
        add(usize::MAX, 1, usize::MAX, LimitKind::DocumentBytes),
        Err(EncodingLimitError {
            limit: LimitKind::DocumentBytes,
            maximum: usize::MAX
        })
    );
    assert_eq!(add(usize::MAX - 1, 1, usize::MAX, LimitKind::TotalValues).unwrap(), usize::MAX);
}

#[test]
fn integer_accounting_matches_codec_boundaries() {
    let limits = Limits::default();
    for value in [
        i64::MIN,
        -65537,
        -65536,
        -257,
        -256,
        -25,
        -24,
        -1,
        0,
        23,
        24,
        255,
        256,
        65535,
        65536,
        0xffff_ffff,
        0x1_0000_0000,
        i64::MAX,
    ] {
        let mut accounting = RecordAccounting::new(&limits).unwrap();
        accounting.integer(value, 0).unwrap();
        assert_eq!(accounting.bytes, encode(&Value::Integer(value), &limits).unwrap().len());
        assert_eq!(accounting.values, 1);
        assert_eq!(accounting.payload, 0);
    }
}

#[test]
fn accounting_charges_text_floats_and_ceilings_in_order() {
    let limits = Limits::default();
    let mut accounting = RecordAccounting::new(&limits).unwrap();
    accounting.collection(2, 0).unwrap();
    accounting.text("abc", 1).unwrap();
    accounting.float(FiniteFloat::from_bits(1.5f64.to_bits()).unwrap(), 1).unwrap();
    accounting.float(FiniteFloat::from_bits(1.1f64.to_bits()).unwrap(), 1).unwrap();
    assert_eq!(accounting.values, 4);
    assert_eq!(accounting.payload, 3);
    assert_eq!(accounting.bytes, 1 + 4 + 3 + 9);
    assert_eq!(header_size(23), 1);
    assert_eq!(header_size(24), 2);
    assert_eq!(header_size(65536), 5);
    assert_eq!(header_size(u64::MAX), 9);
    let shallow = Limits {
        max_depth: 1,
        max_text_bytes: 2,
        ..Limits::default()
    };
    let mut accounting = RecordAccounting::new(&shallow).unwrap();
    assert_eq!(
        accounting.boolean(2),
        Err(EncodingLimitError {
            limit: LimitKind::Depth,
            maximum: 1
        })
    );
    assert_eq!(
        accounting.text("abc", 1),
        Err(EncodingLimitError {
            limit: LimitKind::TextBytes,
            maximum: 2
        })
    );
    let invalid = Limits {
        max_depth: 200,
        ..Limits::default()
    };
    assert_eq!(RecordAccounting::new(&invalid).err().unwrap().kind(), &ErrorKind::InvalidLimits);
}

#[test]
fn digest_text_is_prefixed_lowercase_hex() {
    let digest = hash_bytes(b"abc");
    assert_eq!(
        digest.to_text(),
        "sha256:ba7816bf8f01cfea414140de5dae2223b00361a396177a9cb410ff61f20015ad"
    );
    assert_eq!(Digest::parse(&digest.to_text()).unwrap(), digest);
    let zero = Digest::from_bytes([0; 32]);
    assert_eq!(zero.as_bytes(), &[0u8; 32]);
    assert_eq!(zero.to_text(), format!("sha256:{}", "0".repeat(64)));
}

#[test]
fn digest_parsing_checks_prefix_then_length_then_hex() {
    assert_eq!(Digest::parse("SHA256:00"), Err(ParseDigestError::InvalidPrefix));
    assert_eq!(Digest::parse("sha256"), Err(ParseDigestError::InvalidPrefix));
    assert_eq!(Digest::parse("sha256:00"), Err(ParseDigestError::InvalidLength));
    assert_eq!(
        Digest::parse(&format!("sha256:{}", "A".repeat(64))),
        Err(ParseDigestError::InvalidHex)
    );
    assert_eq!(
        Digest::parse(&format!("sha256:{}", "g".repeat(64))),
        Err(ParseDigestError::InvalidHex)
    );
    assert!(Digest::parse(&format!("sha256:{}", "f".repeat(64))).is_ok());
}

#[test]
fn cbor_and_record_digests_hash_canonical_bytes() {
    let limits = Limits::default();
    let value = Value::Object(
        ValueMap::try_from_entries(vec![("k".to_string(), Value::Integer(1))]).unwrap(),
    );
    let bytes = encode(&value, &limits).unwrap();
    assert_eq!(hash_cbor(&value, &limits).unwrap(), hash_bytes(&bytes));
    let mut preimage = b"htlk.node/0.1\n".to_vec();
    preimage.extend_from_slice(&bytes);
    assert_eq!(record_digest(RecordKind::Node, &value, &limits).unwrap(), hash_bytes(&preimage));
    assert_ne!(
        record_digest(RecordKind::Scope, &value, &limits).unwrap(),
        record_digest(RecordKind::Node, &value, &limits).unwrap()
    );
    let tiny = Limits {
        max_document_bytes: 1,
        ..Limits::default()
    };
    assert_eq!(
        hash_cbor(&value, &tiny).unwrap_err().kind(),
        &ErrorKind::LimitExceeded {
            limit: LimitKind::DocumentBytes,
            maximum: 1
        }
    );
}

#[test]
fn identifiers_accept_lowercase_snake_names_only() {
    for good in ["a", "node_1", "x9_y_z"] {
        assert_eq!(Identifier::parse(good).unwrap().as_str(), good);
    }
    assert_eq!(Identifier::parse(""), Err(ParseIdentifierError::Empty));
    assert_eq!(Identifier::parse("1a"), Err(ParseIdentifierError::InvalidStart));
    assert_eq!(Identifier::parse("_a"), Err(ParseIdentifierError::InvalidStart));
    assert_eq!(Identifier::parse("aB"), Err(ParseIdentifierError::InvalidCharacter { offset: 1 }));
    assert_eq!(Identifier::parse("a__b"), Err(ParseIdentifierError::InvalidSeparator { offset: 2 }));
    assert_eq!(Identifier::parse("ab_"), Err(ParseIdentifierError::InvalidSeparator { offset: 2 }));
    let owned = Identifier::new("name".to_string()).unwrap();
    assert_eq!(owned.clone().into_string(), "name");
}

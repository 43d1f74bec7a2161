use htlk_executable::digest::Digest;
use htlk_executable::cbor::accounting::add;
use htlk_executable::cbor::decode::decode;
use htlk_executable::cbor::encode::{encode, Encoder};
use htlk_executable::cbor::error::{CanonicalityReason, Error, ErrorKind, LimitKind};
use htlk_executable::cbor::header::header;
use htlk_executable::cbor::limits::Limits;
use htlk_executable::cbor::value::{FiniteFloat, Value, ValueMap};

#[test]
fn arithmetic_overflow_is_a_limit_error() {
    for kind in [LimitKind::DocumentBytes, LimitKind::Depth] {
        assert_eq!(
            add(usize::MAX, 1, usize::MAX, kind).unwrap_err().kind(),
            &ErrorKind::LimitExceeded {
                limit: kind,
                maximum: usize::MAX
            }
        );
        assert_eq!(add(usize::MAX - 1, 1, usize::MAX, kind).unwrap(), usize::MAX);
    }
}

#[test]
fn largest_length_headers_need_no_large_allocation() {
    for major in 2u8..=5 {
        for (argument, expected) in [
            (0xffff_ffffu64, vec![major << 5 | 26, 0xff, 0xff, 0xff, 0xff]),
            (0x1_0000_0000u64, vec![major << 5 | 27, 0, 0, 0, 1, 0, 0, 0, 0]),
        ] {
            let (bytes, len) = header(major, argument);
            assert_eq!(&bytes[..len], expected.as_slice());
        }
        let (bytes, len) = header(major, u64::MAX);
        assert_eq!(len, 9);
        assert_eq!(bytes[0], major << 5 | 27);
        assert_eq!(&bytes[1..], &[0xff; 8]);
    }
}

#[test]
fn failed_document_reservation_leaves_output_unallocated() {
    let limits = Limits {
        max_document_bytes: 2,
        ..Limits::default()
    };
    let mut encoder = Encoder {
        output: Vec::new(),
        limits: &limits,
    };
    assert!(encoder.string(b"abc", true).is_err());
    assert_eq!(encoder.output.capacity(), 0);
}

#[test]
fn category_prose_with_and_without_offsets() {
    let cases = [
        (ErrorKind::UnexpectedEnd, "CBOR input ended before the value was complete"),
        (
            ErrorKind::TrailingData,
            "CBOR input contains bytes after the complete top-level value",
        ),
        (ErrorKind::InvalidUtf8, "CBOR text is not valid UTF-8"),
        (
            ErrorKind::UnsupportedType,
            "The CBOR type is not supported by the HTLK profile in this position",
        ),
        (
            ErrorKind::IntegerOutOfRange,
            "CBOR integer is outside the signed 64-bit range",
        ),
        (
            ErrorKind::NonFiniteFloat,
            "CBOR floating-point value is NaN or infinite",
        ),
        (
            ErrorKind::NonCanonicalEncoding,
            "CBOR value does not use its required canonical encoding",
        ),
        (ErrorKind::DuplicateMapKey, "CBOR map contains a duplicate key"),
        (ErrorKind::MapKeyOutOfOrder, "CBOR map keys are not in canonical order"),
        (
            ErrorKind::LimitExceeded {
                limit: LimitKind::DocumentBytes,
                maximum: 1024,
            },
            "CBOR document size exceeds the configured maximum of 1024 bytes",
        ),
        (
            ErrorKind::LimitExceeded {
                limit: LimitKind::Depth,
                maximum: 64,
            },
            "CBOR nesting exceeds the configured maximum depth of 64",
        ),
        (
            ErrorKind::InvalidLimits,
            "The configured CBOR depth limit exceeds the supported maximum of 128",
        ),
        (
            ErrorKind::AllocationFailed,
            "Could not allocate memory to process the CBOR value",
        ),
    ];
    for (kind, prose) in cases {
        let error = Error::new(kind.clone());
        assert_eq!(error.message(), format!("{prose}."));
        assert_eq!(error.kind(), &kind);
        assert_eq!(error.offset(), None);
        let error = error.at(3).at(0);
        assert_eq!(error.message(), format!("{prose} at byte 3."));
        assert_eq!(error.offset(), Some(3));
    }
}

#[test]
fn equality_ignores_private_reasons_but_preserves_category_and_offset() {
    let generic = Error::new(ErrorKind::NonCanonicalEncoding);
    for reason in [
        CanonicalityReason::NonminimalHeader,
        CanonicalityReason::IndefiniteLength,
        CanonicalityReason::WideFloat,
        CanonicalityReason::NegativeZero,
        CanonicalityReason::WideSimple,
    ] {
        let detailed = Error::noncanonical(reason);
        assert_eq!(detailed, generic);
        assert_eq!(detailed.clone().at(7), generic.clone().at(7));
        assert_ne!(detailed.clone().at(7), generic.clone().at(8));
        assert_ne!(detailed.clone().at(7), generic);
        assert_ne!(detailed, Error::new(ErrorKind::UnsupportedType));
    }
    assert_eq!(generic.at(usize::MAX).at(0).offset(), Some(usize::MAX));
}

#[test]
fn canonicality_prose_without_input_offsets() {
    for (reason, expected) in [
        (
            CanonicalityReason::NonminimalHeader,
            "CBOR integer or length header is wider than necessary.",
        ),
        (
            CanonicalityReason::IndefiniteLength,
            "The CBOR header uses an indefinite-length marker, which HTLK does not allow.",
        ),
        (
            CanonicalityReason::WideFloat,
            "CBOR floating-point encoding is wider than necessary.",
        ),
        (
            CanonicalityReason::NegativeZero,
            "CBOR encodes negative zero, but canonical encoding requires positive zero.",
        ),
        (
            CanonicalityReason::WideSimple,
            "CBOR Boolean or null encoding is wider than necessary.",
        ),
    ] {
        assert_eq!(Error::noncanonical(reason).message(), expected);
    }
}

fn text(s: &str) -> Value {
    Value::Text(s.to_string())
}

fn map(entries: Vec<(&str, Value)>) -> Value {
    Value::Object(
        ValueMap::try_from_entries(entries.into_iter().map(|(k, v)| (k.to_string(), v)).collect())
            .unwrap(),
    )
}

fn float(f: f64) -> Value {
    Value::Float(FiniteFloat::from_bits(f.to_bits()).unwrap())
}

#[test]
fn integers_use_the_shortest_header() {
    let limits = Limits::default();
    for (value, expected) in [
        (0i64, vec![0x00]),
        (23, vec![0x17]),
        (24, vec![0x18, 0x18]),
        (255, vec![0x18, 0xff]),
        (256, vec![0x19, 0x01, 0x00]),
        (65536, vec![0x1a, 0x00, 0x01, 0x00, 0x00]),
        (0x1_0000_0000, vec![0x1b, 0, 0, 0, 1, 0, 0, 0, 0]),
        (-1, vec![0x20]),
        (-25, vec![0x38, 0x18]),
        (i64::MIN, vec![0x3b, 0x7f, 0xff, 0xff, 0xff, 0xff, 0xff, 0xff, 0xff]),
    ] {
        assert_eq!(encode(&Value::Integer(value), &limits).unwrap(), expected);
    }
}

#[test]
fn floats_use_the_shortest_exact_width() {
    let limits = Limits::default();
    assert_eq!(encode(&float(1.5), &limits).unwrap(), vec![0xf9, 0x3e, 0x00]);
    assert_eq!(encode(&float(0.0), &limits).unwrap(), vec![0xf9, 0x00, 0x00]);
    assert_eq!(encode(&float(100000.0), &limits).unwrap(), vec![0xfa, 0x47, 0xc3, 0x50, 0x00]);
    assert_eq!(
        encode(&float(1.1), &limits).unwrap(),
        vec![0xfb, 0x3f, 0xf1, 0x99, 0x99, 0x99, 0x99, 0x99, 0x9a]
    );
    assert!(FiniteFloat::from_bits(f64::NAN.to_bits()).is_none());
    assert!(FiniteFloat::from_bits(f64::INFINITY.to_bits()).is_none());
    assert!(FiniteFloat::from_bits((-0.0f64).to_bits()).is_none());
}

#[test]
fn maps_are_written_in_canonical_key_order() {
    let limits = Limits::default();
    let value = map(vec![("bb", Value::Integer(1)), ("a", Value::Bool(true)), ("c", Value::Null)]);
    assert_eq!(
        encode(&value, &limits).unwrap(),
        vec![0xa3, 0x61, b'a', 0xf5, 0x61, b'c', 0xf6, 0x62, b'b', b'b', 0x01]
    );
    let duplicate = ValueMap::try_from_entries(vec![
        ("k".to_string(), Value::Null),
        ("k".to_string(), Value::Bool(false)),
    ]);
    assert_eq!(duplicate.unwrap_err().kind(), &ErrorKind::DuplicateMapKey);
}

#[test]
fn decoding_reads_back_every_encoding() {
    let limits = Limits::default();
    let value = map(vec![
        ("list", Value::Array(vec![Value::Integer(-7), text("é"), Value::Bytes(vec![1, 2, 3])])),
        ("f", float(-2.5)),
        ("nested", map(vec![("x", Value::Null)])),
    ]);
    let bytes = encode(&value, &limits).unwrap();
    let back = decode(&bytes, &limits).unwrap();
    assert_eq!(encode(&back, &limits).unwrap(), bytes);
}

#[test]
fn decoding_rejects_noncanonical_and_trailing_input() {
    let limits = Limits::default();
    assert_eq!(decode(&[0x18, 0x05], &limits).unwrap_err().kind(), &ErrorKind::NonCanonicalEncoding);
    assert_eq!(decode(&[0x01, 0x02], &limits).unwrap_err().kind(), &ErrorKind::TrailingData);
    assert_eq!(decode(&[0x18], &limits).unwrap_err().kind(), &ErrorKind::UnexpectedEnd);
    assert_eq!(decode(&[0x9f], &limits).unwrap_err().kind(), &ErrorKind::NonCanonicalEncoding);
    assert_eq!(decode(&[0x62, 0xff, 0xfe], &limits).unwrap_err().kind(), &ErrorKind::InvalidUtf8);
    assert_eq!(decode(&[0xf9, 0x7c, 0x00], &limits).unwrap_err().kind(), &ErrorKind::NonFiniteFloat);
    assert_eq!(
        decode(&[0xa2, 0x61, b'b', 0x01, 0x61, b'a', 0x02], &limits).unwrap_err().kind(),
        &ErrorKind::MapKeyOutOfOrder
    );
    assert_eq!(
        decode(&[0xa2, 0x61, b'a', 0x01, 0x61, b'a', 0x02], &limits).unwrap_err().kind(),
        &ErrorKind::DuplicateMapKey
    );
    assert_eq!(
        decode(&[0x1b, 0xff, 0xff, 0xff, 0xff, 0xff, 0xff, 0xff, 0xff], &limits).unwrap_err().kind(),
        &ErrorKind::IntegerOutOfRange
    );
}

#[test]
fn limits_bound_document_size_and_depth() {
    let small = Limits {
        max_document_bytes: 2,
        ..Limits::default()
    };
    assert_eq!(
        encode(&text("abc"), &small).unwrap_err().kind(),
        &ErrorKind::LimitExceeded {
            limit: LimitKind::DocumentBytes,
            maximum: 2
        }
    );
    let shallow = Limits {
        max_depth: 0,
        ..Limits::default()
    };
    assert_eq!(
        encode(&Value::Array(vec![Value::Null]), &shallow).unwrap_err().kind(),
        &ErrorKind::LimitExceeded {
            limit: LimitKind::Depth,
            maximum: 0
        }
    );
    assert!(encode(&Value::Array(vec![]), &shallow).is_ok());
    let invalid = Limits {
        max_depth: 129,
        ..Limits::default()
    };
    assert_eq!(invalid.validate().unwrap_err().kind(), &ErrorKind::InvalidLimits);
    assert_eq!(encode(&Value::Null, &invalid).unwrap_err().kind(), &ErrorKind::InvalidLimits);
}

#[test]
fn hashing_reports_the_encoder_error_when_two_ceilings_are_exceeded() {
    let mut l = htlk_executable::cbor::limits::Limits::default();
    l.max_depth = 1;
    l.max_document_bytes = 1;
    let v = htlk_executable::cbor::value::Value::Array(vec![htlk_executable::cbor::value::Value::Array(vec![
        htlk_executable::cbor::value::Value::Integer(1),
    ])]);
    let encoded = htlk_executable::cbor::encode::encode(&v, &l).unwrap_err();
    let hashed = htlk_executable::digest::hash_cbor(&v, &l).unwrap_err();
    assert_eq!(hashed, encoded);
    assert_eq!(
        hashed.kind,
        htlk_executable::cbor::error::ErrorKind::LimitExceeded {
            limit: htlk_executable::cbor::error::LimitKind::Depth,
            maximum: 1
        }
    );
    let record = htlk_executable::digest::record_digest(htlk_executable::digest::RecordKind::Scope, &v, &l).unwrap_err();
    assert_eq!(record, encoded);
}

#[test]
fn digests_compare_by_their_bytes() {

    let mut a = [0u8; 32];
    let mut b = [0u8; 32];
    a[31] = 1;
    b[0] = 1;
    assert!(Digest::from_bytes(a) < Digest::from_bytes(b));
    assert!(Digest::from_bytes(a) == Digest::from_bytes(a));
    assert!(Digest::from_bytes(a) != Digest::from_bytes(b));
    assert_eq!(Digest::from_bytes(a).as_bytes(), &a);
    assert_eq!(Digest::from_bytes(b).cmp(&Digest::from_bytes(a)), std::cmp::Ordering::Greater);
}

use htlk_executable::cbor::decode::decode;
use htlk_executable::cbor::error::LimitKind;
use htlk_executable::cbor::limits::Limits;
use htlk_executable::cbor::value::{Value, ValueMap};
use htlk_executable::options::{ExecutionLimits, ExecutionOptionsError, RetryPolicy};

fn map(entries: Vec<(&str, Value)>) -> Value {
    Value::Object(
        ValueMap::try_from_entries(entries.into_iter().map(|(k, v)| (k.to_string(), v)).collect())
            .unwrap(),
    )
}

#[test]
fn empty_limits_are_an_empty_map() {
    let limits = Limits::default();
    let empty = ExecutionLimits::new();
    assert_eq!(empty.timeout_ms(), None);
    assert_eq!(empty.encode(&limits).unwrap(), vec![0xa0]);
}

#[test]
fn limits_setters_validate_positivity_and_range() {
    let limits = ExecutionLimits::new()
        .with_timeout_ms(5000)
        .unwrap()
        .with_max_tokens(0)
        .unwrap()
        .with_max_concurrency(4)
        .unwrap();
    assert_eq!(limits.timeout_ms(), Some(5000));
    assert_eq!(limits.max_tokens(), Some(0));
    assert_eq!(limits.max_concurrency(), Some(4));
    assert_eq!(limits.attempt_timeout_ms(), None);
    assert!(matches!(
        ExecutionLimits::new().with_timeout_ms(0),
        Err(ExecutionOptionsError::ZeroNotAllowed("timeout_ms"))
    ));
    assert!(matches!(
        ExecutionLimits::new().with_max_cost_units(u64::MAX),
        Err(ExecutionOptionsError::OutOfRange("max_cost_units"))
    ));
    assert!(ExecutionLimits::new().with_max_mcp_calls(0).is_ok());
    assert!(ExecutionLimits::new().with_attempt_timeout_ms(1).is_ok());
}

#[test]
fn limits_round_trip_through_canonical_bytes() {
    let codec = Limits::default();
    let limits = ExecutionLimits::new()
        .with_timeout_ms(10)
        .unwrap()
        .with_max_cost_units(0)
        .unwrap()
        .with_attempt_timeout_ms(3)
        .unwrap();
    let bytes = limits.encode(&codec).unwrap();
    let back = ExecutionLimits::decode(&bytes, &codec).unwrap();
    assert_eq!(back.timeout_ms(), Some(10));
    assert_eq!(back.max_cost_units(), Some(0));
    assert_eq!(back.attempt_timeout_ms(), Some(3));
    assert_eq!(back.max_tokens(), None);
    assert_eq!(back.encode(&codec).unwrap(), bytes);
    let value = decode(&bytes, &codec).unwrap();
    assert!(ExecutionLimits::from_value(&value, &codec).is_ok());
}

#[test]
fn limits_parsing_rejects_unknown_fields_and_bad_numbers() {
    let codec = Limits::default();
    assert!(matches!(
        ExecutionLimits::from_value(&Value::Null, &codec),
        Err(ExecutionOptionsError::ExpectedRecord("execution limits"))
    ));
    assert!(matches!(
        ExecutionLimits::from_value(&map(vec![("other", Value::Integer(1))]), &codec),
        Err(ExecutionOptionsError::UnknownField("execution limits"))
    ));
    assert!(matches!(
        ExecutionLimits::from_value(&map(vec![("timeout_ms", Value::Null)]), &codec),
        Err(ExecutionOptionsError::InvalidFieldType("timeout_ms"))
    ));
    assert!(matches!(
        ExecutionLimits::from_value(&map(vec![("max_tokens", Value::Integer(-1))]), &codec),
        Err(ExecutionOptionsError::OutOfRange("max_tokens"))
    ));
    assert!(matches!(
        ExecutionLimits::from_value(&map(vec![("max_concurrency", Value::Integer(0))]), &codec),
        Err(ExecutionOptionsError::ZeroNotAllowed("max_concurrency"))
    ));
}

#[test]
fn limits_conversion_is_bounded() {
    let tight = Limits {
        max_document_bytes: 4,
        ..Limits::default()
    };
    let limits = ExecutionLimits::new().with_timeout_ms(10).unwrap();
    assert!(matches!(
        limits.to_value(&tight),
        Err(ExecutionOptionsError::LimitExceeded {
            limit: LimitKind::DocumentBytes,
            maximum: 4
        })
    ));
}

#[test]
fn retry_policy_sorts_and_deduplicates_codes() {
    let codec = Limits::default();
    let policy = RetryPolicy::new(
        3,
        vec!["timeout".to_string(), "busy".to_string(), "timeout".to_string()],
        vec![100, 0],
        &codec,
    )
    .unwrap();
    assert_eq!(policy.max_attempts(), 3);
    assert_eq!(policy.on(), &["busy".to_string(), "timeout".to_string()]);
    assert_eq!(policy.backoff_ms(), &[100, 0]);
    let bytes = policy.encode(&codec).unwrap();
    let back = RetryPolicy::decode(&bytes, &codec).unwrap();
    assert_eq!(back.on(), policy.on());
    assert_eq!(back.backoff_ms(), policy.backoff_ms());
    assert_eq!(back.max_attempts(), 3);
}

#[test]
fn retry_policy_checks_attempts_and_delays() {
    let codec = Limits::default();
    let none = RetryPolicy::no_retry();
    assert_eq!(none.max_attempts(), 1);
    assert!(none.on().is_empty());
    assert!(none.backoff_ms().is_empty());
    assert_eq!(RetryPolicy::default().max_attempts(), 1);
    assert!(matches!(
        RetryPolicy::new(0, vec![], vec![], &codec),
        Err(ExecutionOptionsError::ZeroNotAllowed("max_attempts"))
    ));
    assert!(matches!(
        RetryPolicy::new(2, vec![], vec![], &codec),
        Err(ExecutionOptionsError::DelayCountMismatch { expected: 1, actual: 0 })
    ));
    assert!(matches!(
        RetryPolicy::new(2, vec![], vec![u64::MAX], &codec),
        Err(ExecutionOptionsError::OutOfRange("backoff_ms item"))
    ));
}

#[test]
fn retry_policy_parsing_requires_canonical_records() {
    let codec = Limits::default();
    let record = |on: Vec<Value>| {
        map(vec![
            ("on", Value::Array(on)),
            ("backoff_ms", Value::Array(vec![])),
            ("max_attempts", Value::Integer(1)),
        ])
    };
    assert!(RetryPolicy::from_value(&record(vec![Value::Text("a".into()), Value::Text("b".into())]), &codec).is_ok());
    assert!(matches!(
        RetryPolicy::from_value(&record(vec![Value::Text("b".into()), Value::Text("a".into())]), &codec),
        Err(ExecutionOptionsError::NonCanonicalCodes)
    ));
    assert!(matches!(
        RetryPolicy::from_value(&record(vec![Value::Text("a".into()), Value::Text("a".into())]), &codec),
        Err(ExecutionOptionsError::NonCanonicalCodes)
    ));
    assert!(matches!(
        RetryPolicy::from_value(&record(vec![Value::Integer(1)]), &codec),
        Err(ExecutionOptionsError::InvalidFieldType("on item"))
    ));
    assert!(matches!(
        RetryPolicy::from_value(&map(vec![("on", Value::Array(vec![]))]), &codec),
        Err(ExecutionOptionsError::MissingField("backoff_ms"))
    ));
    assert!(matches!(
        RetryPolicy::from_value(&map(vec![("x", Value::Null)]), &codec),
        Err(ExecutionOptionsError::UnknownField("retry policy"))
    ));
}

#[test]
fn default_limits_are_empty_and_equal_to_new() {
    let d = ExecutionLimits::default();
    assert!(d == ExecutionLimits::new());
    assert_eq!(d.attempt_timeout_ms(), None);
    assert_eq!(d.max_concurrency(), None);
}

use htlk_executable::cbor::error::{ErrorKind, LimitKind};
use htlk_executable::cbor::limits::Limits;
use htlk_executable::cbor::value::{Value, ValueMap};
use htlk_executable::expression::{ExpressionError, PromptTemplate, TemplatePart};
use htlk_executable::identifier::Identifier;
use htlk_executable::types::{Port, PrimitiveType, ValueType};

fn id(s: &str) -> Identifier {
    Identifier::parse(s).unwrap()
}

fn port(p: PrimitiveType, required: bool) -> Port {
    Port::new(ValueType::primitive(p), required)
}

fn text(s: &str) -> TemplatePart {
    TemplatePart::Text(s.to_string())
}

fn part_shape(p: &TemplatePart) -> String {
    match p {
        TemplatePart::Text(s) => format!("text:{s}"),
        TemplatePart::Slot(n) => format!("slot:{}", n.as_str()),
    }
}

fn shapes(t: &PromptTemplate) -> Vec<String> {
    t.parts().iter().map(part_shape).collect()
}

fn names(t: &PromptTemplate) -> Vec<String> {
    t.parameters().iter().map(|(n, _)| n.as_str().to_string()).collect()
}

fn greeting() -> PromptTemplate {
    PromptTemplate::new(
        vec![
            (id("zeta"), port(PrimitiveType::Integer, false)),
            (id("alpha"), port(PrimitiveType::String, true)),
        ],
        vec![
            text(""),
            text("Hello "),
            text("there "),
            TemplatePart::Slot(id("alpha")),
            text(", "),
            TemplatePart::Slot(id("zeta")),
            text(""),
            TemplatePart::Slot(id("alpha")),
        ],
        &Limits::default(),
    )
    .unwrap()
}

#[test]
fn template_new_joins_texts_and_orders_parameters() {
    let t = greeting();
    assert_eq!(names(&t), vec!["alpha", "zeta"]);
    assert_eq!(
        shapes(&t),
        vec!["text:Hello there ", "slot:alpha", "text:, ", "slot:zeta", "slot:alpha"]
    );
    assert!(t.parameters()[0].1.required());
    assert!(!t.parameters()[1].1.required());
}

#[test]
fn template_record_reads_back() {
    let limits = Limits::default();
    let t = greeting();
    let bytes = t.encode(&limits).unwrap();
    let back = PromptTemplate::decode(&bytes, &limits).unwrap();
    assert_eq!(names(&back), names(&t));
    assert_eq!(shapes(&back), shapes(&t));
    assert_eq!(back.encode(&limits).unwrap(), bytes);
    let v = t.to_value(&limits).unwrap();
    let again = PromptTemplate::from_value(&v, &limits).unwrap();
    assert_eq!(shapes(&again), shapes(&t));
    assert_eq!(t.digest(&limits).unwrap(), back.digest(&limits).unwrap());
}

#[test]
fn template_record_has_canonical_field_order() {
    let limits = Limits::default();
    let v = greeting().to_value(&limits).unwrap();
    match &v {
        Value::Object(m) => {
            let keys: Vec<&str> = m.entries.iter().map(|(k, _)| k.as_str()).collect();
            assert_eq!(keys, vec!["parts", "parameters"]);
            match &m.entries[1].1 {
                Value::Object(p) => {
                    let keys: Vec<&str> = p.entries.iter().map(|(k, _)| k.as_str()).collect();
                    assert_eq!(keys, vec!["zeta", "alpha"]);
                }
                _ => panic!("parameters are a map"),
            }
        }
        _ => panic!("template record is a map"),
    }
}

#[test]
fn template_digest_depends_on_content() {
    let limits = Limits::default();
    let a = greeting();
    let b = PromptTemplate::new(
        vec![(id("alpha"), port(PrimitiveType::String, true))],
        vec![text("Hi "), TemplatePart::Slot(id("alpha"))],
        &limits,
    )
    .unwrap();
    assert_ne!(a.digest(&limits).unwrap(), b.digest(&limits).unwrap());
}

#[test]
fn template_slot_coverage_is_exact() {
    let limits = Limits::default();
    let missing = PromptTemplate::new(vec![], vec![TemplatePart::Slot(id("x"))], &limits);
    assert!(matches!(missing, Err(ExpressionError::TemplateParameterMismatch)));
    let unused = PromptTemplate::new(
        vec![(id("x"), port(PrimitiveType::Boolean, true))],
        vec![text("no slots")],
        &limits,
    );
    assert!(matches!(unused, Err(ExpressionError::TemplateParameterMismatch)));
}

#[test]
fn template_parameter_types_are_scalar_text_integer_or_boolean() {
    let limits = Limits::default();
    let r = PromptTemplate::new(
        vec![(id("x"), port(PrimitiveType::Float, true))],
        vec![TemplatePart::Slot(id("x"))],
        &limits,
    );
    assert!(matches!(r, Err(ExpressionError::InvalidTemplateParameter)));
}

#[test]
fn template_repeated_parameter_is_a_duplicate_key() {
    let limits = Limits::default();
    let r = PromptTemplate::new(
        vec![
            (id("x"), port(PrimitiveType::String, true)),
            (id("x"), port(PrimitiveType::String, false)),
        ],
        vec![TemplatePart::Slot(id("x"))],
        &limits,
    );
    match r {
        Err(ExpressionError::Codec(e)) => assert_eq!(e.kind, ErrorKind::DuplicateMapKey),
        other => panic!("unexpected {other:?}"),
    }
}

fn record(parts: Vec<Value>) -> Value {
    Value::Object(ValueMap {
        entries: vec![
            ("parts".to_string(), Value::Array(parts)),
            ("parameters".to_string(), Value::Object(ValueMap { entries: vec![] })),
        ],
    })
}

#[test]
fn template_canonical_reading_refuses_repairable_parts() {
    let limits = Limits::default();
    let adjacent = record(vec![Value::Text("a".into()), Value::Text("b".into())]);
    assert!(matches!(
        PromptTemplate::from_value(&adjacent, &limits),
        Err(ExpressionError::NonCanonical("template literal segments"))
    ));
    let empty = record(vec![Value::Text(String::new())]);
    assert!(matches!(
        PromptTemplate::from_value(&empty, &limits),
        Err(ExpressionError::NonCanonical("template literal segments"))
    ));
    let ok = record(vec![Value::Text("a".into())]);
    let t = PromptTemplate::from_value(&ok, &limits).unwrap();
    assert_eq!(shapes(&t), vec!["text:a"]);
}

#[test]
fn template_reading_checks_shapes() {
    let limits = Limits::default();
    assert!(matches!(
        PromptTemplate::from_value(&Value::Null, &limits),
        Err(ExpressionError::InvalidShape("template record"))
    ));
    let bad_part = record(vec![Value::Integer(1)]);
    assert!(matches!(
        PromptTemplate::from_value(&bad_part, &limits),
        Err(ExpressionError::InvalidShape("template part"))
    ));
    let bad_slot = record(vec![Value::Array(vec![Value::Text("slot".into()), Value::Text("Bad".into())])]);
    assert!(matches!(
        PromptTemplate::from_value(&bad_slot, &limits),
        Err(ExpressionError::Identifier(_))
    ));
    let one_field = Value::Object(ValueMap { entries: vec![("parts".to_string(), Value::Array(vec![]))] });
    assert!(matches!(
        PromptTemplate::from_value(&one_field, &limits),
        Err(ExpressionError::InvalidShape("template fields"))
    ));
}

#[test]
fn template_joined_text_respects_the_text_ceiling() {
    let mut limits = Limits::default();
    limits.max_text_bytes = 4;
    let r = PromptTemplate::new(vec![], vec![text("abc"), text("de")], &limits);
    assert!(matches!(
        r,
        Err(ExpressionError::LimitExceeded { limit: LimitKind::TextBytes, maximum: 4 })
    ));
}

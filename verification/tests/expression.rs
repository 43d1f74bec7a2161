use htlk_executable::cbor::limits::Limits;
use htlk_executable::cbor::value::Value;
use htlk_executable::expression::{
    BinaryOperator, Expression, ExpressionContext, ExpressionError, ExpressionKind, PathStep, ScalarLiteral,
    ValueReference,
};
use htlk_executable::identifier::Identifier;

fn id(s: &str) -> Identifier {
    Identifier::parse(s).unwrap()
}

fn t(s: &str) -> Value {
    Value::Text(s.to_string())
}

fn arr(items: Vec<Value>) -> Value {
    Value::Array(items)
}

fn input_ref(name: &str, path: Vec<PathStep>) -> Expression {
    Expression::new(
        ExpressionKind::Ref { source: ValueReference::Input(id(name)), path },
        ExpressionContext::Eval,
        &Limits::default(),
    )
    .unwrap()
}

#[test]
fn get_on_reference_folds_when_normalizing() {
    let base = input_ref("doc", vec![PathStep::Field("a".to_string())]);
    let e = Expression::new(
        ExpressionKind::Get { value: Box::new(base), path: vec![PathStep::Index(2)] },
        ExpressionContext::Eval,
        &Limits::default(),
    )
    .unwrap();
    match e.kind() {
        ExpressionKind::Ref { source, path } => {
            assert_eq!(source, &ValueReference::Input(id("doc")));
            assert_eq!(path, &vec![PathStep::Field("a".to_string()), PathStep::Index(2)]);
        }
        other => panic!("unexpected shape {other:?}"),
    }
}

#[test]
fn canonical_reading_refuses_get_on_reference() {
    let v = arr(vec![
        t("get"),
        arr(vec![t("ref"), arr(vec![t("input"), t("doc")]), arr(vec![])]),
        arr(vec![t("a")]),
    ]);
    let r = Expression::from_value(&v, ExpressionContext::Eval, &Limits::default());
    assert!(matches!(r, Err(ExpressionError::NonCanonical("get on reference"))));
}

#[test]
fn regex_flags_normalize_to_ims_order() {
    let e = Expression::new(
        ExpressionKind::Regex { pattern: "^a+$".to_string(), flags: "si".to_string() },
        ExpressionContext::Eval,
        &Limits::default(),
    )
    .unwrap();
    match e.kind() {
        ExpressionKind::Regex { pattern, flags } => {
            assert_eq!(pattern, "^a+$");
            assert_eq!(flags, "is");
        }
        other => panic!("unexpected shape {other:?}"),
    }
    let v = arr(vec![t("regex"), t("x"), t("si")]);
    assert!(matches!(
        Expression::from_value(&v, ExpressionContext::Eval, &Limits::default()),
        Err(ExpressionError::NonCanonical("regex flag order"))
    ));
    let v = arr(vec![t("regex"), t("x"), t("ii")]);
    assert!(matches!(
        Expression::from_value(&v, ExpressionContext::Eval, &Limits::default()),
        Err(ExpressionError::InvalidRegexFlags)
    ));
    let v = arr(vec![t("regex"), t("x"), t("x")]);
    assert!(matches!(
        Expression::from_value(&v, ExpressionContext::Eval, &Limits::default()),
        Err(ExpressionError::InvalidRegexFlags)
    ));
}

fn lit(n: i64) -> Expression {
    Expression::literal(ScalarLiteral::Integer(n))
}

#[test]
fn record_fields_are_sorted_and_checked() {
    let e = Expression::new(
        ExpressionKind::Record(vec![("b".to_string(), lit(2)), ("a".to_string(), lit(1))]),
        ExpressionContext::Eval,
        &Limits::default(),
    )
    .unwrap();
    match e.kind() {
        ExpressionKind::Record(fields) => {
            let names: Vec<&str> = fields.iter().map(|(n, _)| n.as_str()).collect();
            assert_eq!(names, vec!["a", "b"]);
        }
        other => panic!("unexpected shape {other:?}"),
    }
    let dup = Expression::new(
        ExpressionKind::Record(vec![("a".to_string(), lit(2)), ("a".to_string(), lit(1))]),
        ExpressionContext::Eval,
        &Limits::default(),
    );
    assert!(matches!(dup, Err(ExpressionError::DuplicateField)));
    let pair = |k: &str, n: i64| arr(vec![t(k), arr(vec![t("literal"), Value::Integer(n)])]);
    let v = arr(vec![t("record"), arr(vec![pair("b", 2), pair("a", 1)])]);
    assert!(matches!(
        Expression::from_value(&v, ExpressionContext::Eval, &Limits::default()),
        Err(ExpressionError::NonCanonical("record field UTF-8 order"))
    ));
    let v = arr(vec![t("record"), arr(vec![pair("a", 2), pair("a", 1)])]);
    assert!(matches!(
        Expression::from_value(&v, ExpressionContext::Eval, &Limits::default()),
        Err(ExpressionError::DuplicateField)
    ));
}

#[test]
fn reference_categories_follow_the_context() {
    let out = ExpressionKind::Ref {
        source: ValueReference::Output { node: id("n"), port: id("p") },
        path: vec![],
    };
    assert!(matches!(
        Expression::new(out, ExpressionContext::Eval, &Limits::default()),
        Err(ExpressionError::ForbiddenReference("output"))
    ));
    let out = ExpressionKind::Ref {
        source: ValueReference::Output { node: id("n"), port: id("p") },
        path: vec![],
    };
    assert!(Expression::new(out, ExpressionContext::Guard { loop_body: false }, &Limits::default()).is_ok());
    assert!(matches!(
        Expression::new(ExpressionKind::Status(id("n")), ExpressionContext::Preconditions, &Limits::default()),
        Err(ExpressionError::ForbiddenReference("node outcome"))
    ));
    let v = arr(vec![t("ref"), arr(vec![t("next"), t("x")]), arr(vec![])]);
    assert!(matches!(
        Expression::from_value(&v, ExpressionContext::Eval, &Limits::default()),
        Err(ExpressionError::ForbiddenReference("next"))
    ));
    assert!(Expression::from_value(&v, ExpressionContext::LoopUntil, &Limits::default()).is_ok());
}

#[test]
fn expressions_round_trip_through_bytes() {
    let e = Expression::new(
        ExpressionKind::Binary {
            operator: BinaryOperator::Le,
            left: Box::new(lit(1)),
            right: Box::new(input_ref("n", vec![PathStep::Field("len".to_string())])),
        },
        ExpressionContext::Eval,
        &Limits::default(),
    )
    .unwrap();
    let bytes = e.encode(ExpressionContext::Eval, &Limits::default()).unwrap();
    let back = Expression::decode(&bytes, ExpressionContext::Eval, &Limits::default()).unwrap();
    assert_eq!(back.encode(ExpressionContext::Eval, &Limits::default()).unwrap(), bytes);
    let v = e.to_value(ExpressionContext::Eval, &Limits::default()).unwrap();
    match &v {
        Value::Array(items) => {
            assert_eq!(items.len(), 3);
            assert!(matches!(&items[0], Value::Text(s) if s == "le"));
        }
        other => panic!("unexpected record {other:?}"),
    }
}

#[test]
fn malformed_records_are_refused() {
    let l = Limits::default();
    let c = ExpressionContext::Eval;
    assert!(matches!(
        Expression::from_value(&arr(vec![t("nope"), t("x")]), c, &l),
        Err(ExpressionError::UnknownConstructor)
    ));
    assert!(matches!(
        Expression::from_value(&arr(vec![t("not")]), c, &l),
        Err(ExpressionError::InvalidShape("constructor arity"))
    ));
    assert!(matches!(Expression::from_value(&t("x"), c, &l), Err(ExpressionError::InvalidShape("expression"))));
    let v = arr(vec![t("ref"), arr(vec![t("input"), t("x")]), arr(vec![Value::Integer(-1)])]);
    assert!(matches!(Expression::from_value(&v, c, &l), Err(ExpressionError::InvalidIndex)));
    let v = arr(vec![t("call"), arr(vec![t("core"), t("length")]), arr(vec![])]);
    assert!(matches!(
        Expression::from_value(&v, c, &l),
        Err(ExpressionError::InvalidShape("core function arity"))
    ));
    let v = arr(vec![t("call"), arr(vec![t("core"), t("nope")]), arr(vec![])]);
    assert!(matches!(Expression::from_value(&v, c, &l), Err(ExpressionError::UnknownFunction)));
    let v = arr(vec![t("get"), arr(vec![t("literal"), Value::Integer(1)]), arr(vec![])]);
    assert!(matches!(
        Expression::from_value(&v, c, &l),
        Err(ExpressionError::InvalidShape("nonempty get path"))
    ));
}

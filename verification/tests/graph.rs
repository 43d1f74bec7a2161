use htlk_executable::cbor::error::ErrorKind;
use htlk_executable::cbor::limits::Limits;
use htlk_executable::cbor::value::Value;
use htlk_executable::cbor::value::ValueMap;
use htlk_executable::graph::edge::Edge;
use htlk_executable::graph::{EdgeDestination, EdgeSource, GraphRecordError, PortTable, ScopeContext};
use htlk_executable::identifier::Identifier;
use htlk_executable::types::model::TypeError;
use htlk_executable::types::{Port, PrimitiveType, ValueType, ValueTypeKind};

fn id(s: &str) -> Identifier {
    Identifier::parse(s).unwrap()
}

fn port(p: PrimitiveType, required: bool) -> Port {
    Port::new(ValueType::primitive(p), required)
}

#[test]
fn port_table_orders_names_and_looks_them_up() {
    let t = PortTable::new(
        vec![(id("zeta"), port(PrimitiveType::Bytes, true)), (id("alpha"), port(PrimitiveType::Json, false))],
        &Limits::default(),
    )
    .unwrap();
    let names: Vec<&str> = t.iter().iter().map(|(n, _)| n.as_str()).collect();
    assert_eq!(names, vec!["alpha", "zeta"]);
    assert_eq!(t.len(), 2);
    assert!(!t.is_empty());
    assert!(!t.get("alpha").unwrap().required());
    assert!(t.get("beta").is_none());
}

#[test]
fn port_table_record_reads_back() {
    let limits = Limits::default();
    let t = PortTable::new(
        vec![(id("b"), port(PrimitiveType::String, true)), (id("a"), port(PrimitiveType::Integer, true))],
        &limits,
    )
    .unwrap();
    let bytes = t.encode(&limits).unwrap();
    let back = PortTable::decode(&bytes, &limits).unwrap();
    assert_eq!(back.len(), 2);
    assert_eq!(back.encode(&limits).unwrap(), bytes);
    let v = t.to_value(&limits).unwrap();
    assert_eq!(PortTable::from_value(&v, &limits).unwrap().len(), 2);
}

#[test]
fn port_table_refuses_repeated_names() {
    let r = PortTable::new(
        vec![(id("a"), port(PrimitiveType::String, true)), (id("a"), port(PrimitiveType::Integer, true))],
        &Limits::default(),
    );
    match r {
        Err(GraphRecordError::Codec(e)) => assert_eq!(e.kind, ErrorKind::DuplicateMapKey),
        other => panic!("unexpected {other:?}"),
    }
}

#[test]
fn port_table_types_are_value_context() {
    let var = Port::new(ValueType { kind: ValueTypeKind::Var(id("t")) }, true);
    let r = PortTable::new(vec![(id("a"), var)], &Limits::default());
    assert!(matches!(r, Err(GraphRecordError::Type(TypeError::SignatureOnly("var")))));
}

#[test]
fn port_table_reading_checks_shape_and_names() {
    let limits = Limits::default();
    assert!(matches!(PortTable::from_value(&Value::Null, &limits), Err(GraphRecordError::InvalidShape("port table"))));
    let empty = PortTable::new(vec![], &limits).unwrap();
    assert!(empty.is_empty());
}

fn eid(s: &str) -> htlk_executable::identifier::Identifier {
    htlk_executable::identifier::Identifier::parse(s).unwrap()
}

#[test]
fn edges_round_trip_through_their_records() {
    let l = htlk_executable::cbor::limits::Limits::default();
    let e = Edge::new(
        eid("e1"),
        EdgeSource::Output { node: eid("a"), port: eid("out") },
        EdgeDestination::Output(eid("result")),
    );
    let bytes = e.encode(ScopeContext::Ordinary, &l).unwrap();
    let back = Edge::decode(&bytes, ScopeContext::Ordinary, &l).unwrap();
    assert_eq!(back.id().as_str(), "e1");
    assert_eq!(back.source(), &EdgeSource::Output { node: eid("a"), port: eid("out") });
    assert_eq!(back.destination(), &EdgeDestination::Output(eid("result")));
    assert_eq!(back.encode(ScopeContext::Ordinary, &l).unwrap(), bytes);
    let v = e.to_value(ScopeContext::LoopBody, &l).unwrap();
    match &v {
        Value::Object(m) => {
            let keys: Vec<&str> = m.entries.iter().map(|(k, _)| k.as_str()).collect();
            assert_eq!(keys, vec!["id", "guard", "source", "destination"]);
        }
        other => panic!("unexpected record {other:?}"),
    }
    let mut bad = match v {
        Value::Object(m) => m,
        _ => unreachable!(),
    };
    bad.entries.retain(|(k, _)| k != "guard");
    let r = Edge::from_value(&Value::Object(bad), ScopeContext::Ordinary, &l);
    assert!(matches!(r, Err(GraphRecordError::MissingField("guard"))));
}

#[test]
fn edge_endpoints_are_checked() {
    let l = htlk_executable::cbor::limits::Limits::default();
    let t = |s: &str| Value::Text(s.to_string());
    let record = |source: Value| {
        Value::Object(ValueMap {
            entries: vec![
                ("id".to_string(), t("e")),
                ("guard".to_string(), Value::Array(vec![t("literal"), Value::Bool(true)])),
                ("source".to_string(), source),
                ("destination".to_string(), Value::Array(vec![t("next"), t("x")])),
            ],
        })
    };
    assert!(Edge::from_value(&record(Value::Array(vec![t("carried"), t("x")])), ScopeContext::LoopBody, &l).is_ok());
    assert!(matches!(
        Edge::from_value(&record(Value::Array(vec![t("output"), t("x")])), ScopeContext::Ordinary, &l),
        Err(GraphRecordError::InvalidShape("constructor arity"))
    ));
    assert!(matches!(
        Edge::from_value(&record(Value::Array(vec![t("nope"), t("x")])), ScopeContext::Ordinary, &l),
        Err(GraphRecordError::InvalidShape("source tag"))
    ));
    assert!(matches!(
        Edge::from_value(&record(Value::Array(vec![t("input"), t("X")])), ScopeContext::Ordinary, &l),
        Err(GraphRecordError::Identifier(_))
    ));
}

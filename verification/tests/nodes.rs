use htlk_executable::cbor::limits::Limits;
use htlk_executable::cbor::value::{Value, ValueMap};
use htlk_executable::digest::Digest;
use htlk_executable::graph::node::{Node, NodeFields};
use htlk_executable::graph::operation::Operation;
use htlk_executable::graph::scope::{Scope, ScopeFields};
use htlk_executable::graph::{GraphRecordError, PortTable, ScopeContext};
use htlk_executable::identifier::Identifier;
use htlk_executable::options::RetryPolicy;
use htlk_executable::types::{Port, PrimitiveType, ValueType};

fn id(s: &str) -> Identifier {
    Identifier::parse(s).unwrap()
}

fn t(s: &str) -> Value {
    Value::Text(s.to_string())
}

fn truth() -> Value {
    Value::Array(vec![t("literal"), Value::Bool(true)])
}

fn map(entries: Vec<(&str, Value)>) -> Value {
    Value::Object(ValueMap::try_from_entries(entries.into_iter().map(|(k, v)| (k.to_string(), v)).collect()).unwrap())
}

fn table(entries: Vec<(&str, PrimitiveType, bool)>) -> Value {
    let l = Limits::default();
    let es = entries.into_iter().map(|(n, p, r)| (id(n), Port::new(ValueType::primitive(p), r))).collect();
    PortTable::new(es, &l).unwrap().to_value(&l).unwrap()
}

fn wait_op(timeout: i64) -> Value {
    Value::Array(vec![t("wait"), t("topic.a"), Value::Integer(timeout)])
}

fn node(name: &str, op: Value, inputs: Value, outputs: Value) -> Value {
    map(vec![
        ("id", t(name)),
        ("inputs", inputs),
        ("outputs", outputs),
        ("guard", truth()),
        ("preconditions", truth()),
        ("postconditions", truth()),
        ("limits", map(vec![])),
        ("operation", op),
    ])
}

fn eval_node(name: &str) -> Value {
    node(
        name,
        Value::Array(vec![t("eval"), truth()]),
        table(vec![]),
        table(vec![("value", PrimitiveType::Boolean, false)]),
    )
}

#[test]
fn operations_round_trip_through_their_records() {
    let l = Limits::default();
    let wait = Operation::Wait { topic: "approvals".to_string(), timeout_ms: 500 };
    let bytes = wait.encode(&l).unwrap();
    match Operation::decode(&bytes, &l).unwrap() {
        Operation::Wait { topic, timeout_ms } => {
            assert_eq!(topic, "approvals");
            assert_eq!(timeout_ms, 500);
        }
        other => panic!("unexpected {other:?}"),
    }
    let d = Digest::from_bytes([7u8; 32]);
    let scope = Operation::Scope(d);
    let v = scope.to_value(&l).unwrap();
    match &v {
        Value::Array(a) => {
            assert_eq!(a.len(), 2);
            assert!(matches!(&a[1], Value::Text(s) if s.starts_with("sha256:07070707")));
        }
        other => panic!("unexpected {other:?}"),
    }
    assert!(matches!(Operation::from_value(&v, &l).unwrap(), Operation::Scope(x) if x == d));
    let mcp = Operation::Mcp { binding: d, retry: RetryPolicy::no_retry() };
    let bytes = mcp.encode(&l).unwrap();
    assert!(matches!(Operation::decode(&bytes, &l).unwrap(), Operation::Mcp { binding, .. } if binding == d));
}

#[test]
fn loop_initializers_come_back_in_name_order() {
    let l = Limits::default();
    let op = Operation::Loop {
        body: Digest::from_bytes([1u8; 32]),
        initializers: vec![(id("zeta"), id("a")), (id("alpha"), id("b"))],
        until: htlk_executable::expression::Expression::literal(
            htlk_executable::expression::ScalarLiteral::Boolean(true),
        ),
        max_iterations: 3,
    };
    let back = Operation::decode(&op.encode(&l).unwrap(), &l).unwrap();
    match back {
        Operation::Loop { initializers, max_iterations, .. } => {
            let names: Vec<&str> = initializers.iter().map(|(c, _)| c.as_str()).collect();
            assert_eq!(names, vec!["alpha", "zeta"]);
            assert_eq!(max_iterations, 3);
        }
        other => panic!("unexpected {other:?}"),
    }
    let repeated = Operation::Loop {
        body: Digest::from_bytes([1u8; 32]),
        initializers: vec![(id("a"), id("x")), (id("a"), id("y"))],
        until: htlk_executable::expression::Expression::literal(
            htlk_executable::expression::ScalarLiteral::Boolean(true),
        ),
        max_iterations: 3,
    };
    assert!(matches!(repeated.to_value(&l), Err(GraphRecordError::Codec(_))));
}

#[test]
fn operation_records_are_checked() {
    let l = Limits::default();
    assert!(matches!(Operation::from_value(&Value::Array(vec![t("call"), truth()]), &l),
        Err(GraphRecordError::UnknownOperation)));
    assert!(matches!(Operation::from_value(&Value::Array(vec![]), &l), Err(GraphRecordError::UnknownOperation)));
    assert!(matches!(Operation::from_value(&Value::Array(vec![t("eval")]), &l),
        Err(GraphRecordError::InvalidShape("constructor arity"))));
    assert!(matches!(Operation::from_value(&wait_op(0), &l), Err(GraphRecordError::InvalidBound("timeout_ms"))));
    assert!(matches!(Operation::from_value(&Value::Null, &l), Err(GraphRecordError::InvalidShape("operation"))));
    let zero = Operation::Wait { topic: "x".to_string(), timeout_ms: 0 };
    assert!(matches!(zero.to_value(&l), Err(GraphRecordError::InvalidBound("timeout_ms"))));
    let huge = Operation::Wait { topic: "x".to_string(), timeout_ms: u64::MAX };
    assert!(matches!(huge.encode(&l), Err(GraphRecordError::InvalidBound("timeout_ms"))));
}

#[test]
fn node_records_are_read_and_checked() {
    let l = Limits::default();
    let n = Node::from_value(&eval_node("calc"), ScopeContext::Ordinary, &l).unwrap();
    assert_eq!(n.id().as_str(), "calc");
    assert_eq!(n.fields().outputs.len(), 1);
    assert!(matches!(Node::from_value(&eval_node("inputs"), ScopeContext::Ordinary, &l),
        Err(GraphRecordError::ReservedNodeName)));
    let two_outputs = node("calc", Value::Array(vec![t("eval"), truth()]), table(vec![]),
        table(vec![("value", PrimitiveType::Boolean, false), ("extra", PrimitiveType::Boolean, false)]));
    assert!(matches!(Node::from_value(&two_outputs, ScopeContext::Ordinary, &l),
        Err(GraphRecordError::InvalidPorts("primitive value output"))));
    let optional_wait = node("w", wait_op(5), table(vec![("request", PrimitiveType::Json, true)]),
        table(vec![("value", PrimitiveType::Json, false)]));
    assert!(matches!(Node::from_value(&optional_wait, ScopeContext::Ordinary, &l),
        Err(GraphRecordError::InvalidPorts("primitive value output"))));
    let bad_request = node("w", wait_op(5), table(vec![("request", PrimitiveType::String, true)]),
        table(vec![("value", PrimitiveType::Json, true)]));
    assert!(matches!(Node::from_value(&bad_request, ScopeContext::Ordinary, &l),
        Err(GraphRecordError::InvalidPorts("wait request input"))));
    let good_wait = node("w", wait_op(5), table(vec![("request", PrimitiveType::Json, true)]),
        table(vec![("value", PrimitiveType::Json, true)]));
    assert!(Node::from_value(&good_wait, ScopeContext::Ordinary, &l).is_ok());
    let bytes = htlk_executable::cbor::encode::encode(&good_wait, &l).unwrap();
    assert_eq!(Node::decode(&bytes, ScopeContext::Ordinary, &l).unwrap().id().as_str(), "w");
    let d = Digest::from_bytes([2u8; 32]).to_text();
    let mcp_op = || Value::Array(vec![t("mcp"), t(&d), RetryPolicy::no_retry().to_value(&l).unwrap()]);
    let mcp_bad = node("m", mcp_op(), table(vec![("other", PrimitiveType::Json, true)]),
        table(vec![("value", PrimitiveType::Json, true)]));
    assert!(matches!(Node::from_value(&mcp_bad, ScopeContext::Ordinary, &l),
        Err(GraphRecordError::InvalidPorts("MCP arguments input"))));
    let mcp_ok = node("m", mcp_op(), table(vec![]), table(vec![("value", PrimitiveType::Json, true)]));
    assert!(Node::from_value(&mcp_ok, ScopeContext::Ordinary, &l).is_ok());
}

#[test]
fn node_fields_start_empty_and_true() {
    let f = NodeFields::new(id("n"), Operation::Scope(Digest::from_bytes([0u8; 32])));
    assert!(f.inputs.is_empty() && f.outputs.is_empty());
    assert_eq!(f.limits.timeout_ms(), None);
    let s = ScopeFields::default();
    assert!(s.nodes.is_empty() && s.edges.is_empty() && s.carried.is_empty());
}

fn scope(nodes: Vec<Value>) -> Value {
    map(vec![
        ("inputs", table(vec![])),
        ("outputs", table(vec![])),
        ("carried", table(vec![])),
        ("nodes", Value::Array(nodes)),
        ("edges", Value::Array(vec![])),
        ("preconditions", truth()),
        ("postconditions", truth()),
        ("limits", map(vec![])),
    ])
}

#[test]
fn scope_records_keep_canonical_order() {
    let l = Limits::default();
    let s = Scope::from_value(&scope(vec![eval_node("a"), eval_node("b")]), ScopeContext::Ordinary, &l).unwrap();
    let names: Vec<&str> = s.fields().nodes.iter().map(|n| n.id().as_str()).collect();
    assert_eq!(names, vec!["a", "b"]);
    assert!(matches!(Scope::from_value(&scope(vec![eval_node("b"), eval_node("a")]), ScopeContext::Ordinary, &l),
        Err(GraphRecordError::NonCanonicalOrder("node"))));
    assert!(matches!(Scope::from_value(&scope(vec![eval_node("a"), eval_node("a")]), ScopeContext::Ordinary, &l),
        Err(GraphRecordError::DuplicateId("node"))));
    let bytes = htlk_executable::cbor::encode::encode(&scope(vec![eval_node("x")]), &l).unwrap();
    assert_eq!(Scope::decode(&bytes, ScopeContext::LoopBody, &l).unwrap().fields().nodes.len(), 1);
    let mut bad = match scope(vec![]) {
        Value::Object(m) => m,
        _ => unreachable!(),
    };
    for (k, v) in bad.entries.iter_mut() {
        if k == "nodes" {
            *v = Value::Null;
        }
    }
    assert!(matches!(Scope::from_value(&Value::Object(bad), ScopeContext::Ordinary, &l),
        Err(GraphRecordError::InvalidShape("nodes"))));
}

fn eval_fields(name: &str) -> NodeFields {
    let l = Limits::default();
    let mut f = NodeFields::new(
        id(name),
        Operation::Eval(htlk_executable::expression::Expression::literal(
            htlk_executable::expression::ScalarLiteral::Boolean(true),
        )),
    );
    f.outputs = PortTable::new(vec![(id("value"), Port::new(ValueType::primitive(PrimitiveType::Boolean), false))], &l)
        .unwrap();
    f
}

#[test]
fn nodes_are_built_checked_and_read_back() {
    let l = Limits::default();
    let n = Node::new(eval_fields("calc"), ScopeContext::Ordinary, &l).unwrap();
    let bytes = n.encode(ScopeContext::Ordinary, &l).unwrap();
    let back = Node::decode(&bytes, ScopeContext::Ordinary, &l).unwrap();
    assert_eq!(back.id().as_str(), "calc");
    assert_eq!(back.encode(ScopeContext::Ordinary, &l).unwrap(), bytes);
    let v = n.to_value(ScopeContext::Ordinary, &l).unwrap();
    let expected = htlk_executable::digest::record_digest(htlk_executable::digest::RecordKind::Node, &v, &l).unwrap();
    assert_eq!(n.digest(ScopeContext::Ordinary, &l).unwrap(), expected);
    assert!(matches!(Node::new(eval_fields("status"), ScopeContext::Ordinary, &l),
        Err(GraphRecordError::ReservedNodeName)));
    let bare = NodeFields::new(id("w"), Operation::Wait { topic: "t".to_string(), timeout_ms: 1 });
    assert!(matches!(Node::new(bare, ScopeContext::Ordinary, &l),
        Err(GraphRecordError::InvalidPorts("primitive value output"))));
    let bad_bound = {
        let mut f = eval_fields("w");
        f.operation = Operation::Wait { topic: "t".to_string(), timeout_ms: 0 };
        f
    };
    assert!(matches!(Node::new(bad_bound, ScopeContext::Ordinary, &l), Err(GraphRecordError::InvalidPorts(_))));
}

#[test]
fn scopes_encode_canonically_and_hash() {
    let l = Limits::default();
    let v = scope(vec![eval_node("a"), eval_node("b")]);
    let bytes = htlk_executable::cbor::encode::encode(&v, &l).unwrap();
    let s = Scope::decode(&bytes, ScopeContext::Ordinary, &l).unwrap();
    assert_eq!(s.encode(ScopeContext::Ordinary, &l).unwrap(), bytes);
    let expected = htlk_executable::digest::record_digest(htlk_executable::digest::RecordKind::Scope, &v, &l).unwrap();
    assert_eq!(s.digest(ScopeContext::Ordinary, &l).unwrap(), expected);
    assert_eq!(s.digest(ScopeContext::LoopBody, &l).unwrap(), expected);
    let tiny = Limits { max_document_bytes: 8, ..Limits::default() };
    assert!(s.encode(ScopeContext::Ordinary, &tiny).is_err());
}

#[test]
fn scopes_are_made_in_name_order() {
    let l = Limits::default();
    let mut f = ScopeFields::default();
    f.nodes = vec![
        Node::new(eval_fields("b"), ScopeContext::Ordinary, &l).unwrap(),
        Node::new(eval_fields("a"), ScopeContext::Ordinary, &l).unwrap(),
    ];
    let s = Scope::new(f, ScopeContext::Ordinary, &l).unwrap();
    let names: Vec<&str> = s.fields().nodes.iter().map(|n| n.id().as_str()).collect();
    assert_eq!(names, vec!["a", "b"]);
    let bytes = s.encode(ScopeContext::Ordinary, &l).unwrap();
    assert_eq!(Scope::decode(&bytes, ScopeContext::Ordinary, &l).unwrap().encode(ScopeContext::Ordinary, &l).unwrap(), bytes);
    let mut twice = ScopeFields::default();
    twice.nodes = vec![
        Node::new(eval_fields("a"), ScopeContext::Ordinary, &l).unwrap(),
        Node::new(eval_fields("a"), ScopeContext::Ordinary, &l).unwrap(),
    ];
    assert!(matches!(Scope::new(twice, ScopeContext::Ordinary, &l), Err(GraphRecordError::DuplicateId("node"))));
}

use htlk_executable::cbor::limits::Limits;
use htlk_executable::cbor::value::Value;
use htlk_executable::digest::hash_bytes;
use htlk_executable::identifier::Identifier;
use htlk_executable::types::model::TypeError;
use htlk_executable::types::{Port, PrimitiveType, TypeContext, ValueType, ValueTypeKind};

fn prim(p: PrimitiveType) -> ValueType {
    ValueType::primitive(p)
}

#[test]
fn primitive_spellings_read_back() {
    let all = [
        PrimitiveType::String,
        PrimitiveType::Integer,
        PrimitiveType::Float,
        PrimitiveType::Boolean,
        PrimitiveType::Null,
        PrimitiveType::Bytes,
        PrimitiveType::Json,
        PrimitiveType::Regex,
        PrimitiveType::ResourceSnapshot,
        PrimitiveType::McpPromptResult,
        PrimitiveType::Error,
    ];
    for p in all {
        assert!(matches!(PrimitiveType::parse(p.as_str()), Ok(q) if q == p));
    }
    assert_eq!(PrimitiveType::Integer.as_str(), "integer");
    assert!(matches!(PrimitiveType::parse("int"), Err(TypeError::UnknownPrimitive)));
    assert!(matches!(PrimitiveType::parse("Integer"), Err(TypeError::UnknownPrimitive)));
    assert_eq!(PrimitiveType::Integer.as_str(), "integer");
    assert_eq!(PrimitiveType::ResourceSnapshot.as_str(), "ResourceSnapshot");
}

#[test]
fn enum_members_are_sorted_and_unique() {
    let limits = Limits::default();
    let t = ValueType::new(
        ValueTypeKind::Enum(vec!["b".to_string(), "a".to_string()]),
        TypeContext::Value,
        &limits,
    )
    .unwrap();
    match t.kind() {
        ValueTypeKind::Enum(m) => assert_eq!(m, &vec!["a".to_string(), "b".to_string()]),
        _ => panic!("enum stays an enum"),
    }
    let dup = ValueType::new(
        ValueTypeKind::Enum(vec!["a".to_string(), "a".to_string()]),
        TypeContext::Value,
        &limits,
    );
    assert!(matches!(dup, Err(TypeError::DuplicateEnumMember)));
    let empty = ValueType::new(ValueTypeKind::Enum(vec![]), TypeContext::Value, &limits);
    assert!(matches!(empty, Err(TypeError::EmptyEnum)));
}

#[test]
fn unions_are_deduplicated_and_need_two_members() {
    let limits = Limits::default();
    let u = ValueType::new(
        ValueTypeKind::Union(vec![prim(PrimitiveType::String), prim(PrimitiveType::Integer), prim(PrimitiveType::String)]),
        TypeContext::Value,
        &limits,
    )
    .unwrap();
    match u.kind() {
        ValueTypeKind::Union(m) => assert_eq!(m.len(), 2),
        _ => panic!("union stays a union"),
    }
    let one = ValueType::new(
        ValueTypeKind::Union(vec![prim(PrimitiveType::String), prim(PrimitiveType::String)]),
        TypeContext::Value,
        &limits,
    );
    assert!(matches!(one, Err(TypeError::UnionCardinality)));
}

#[test]
fn signature_only_types_are_refused_in_value_context() {
    let limits = Limits::default();
    let var = ValueTypeKind::Var(Identifier::parse("t").unwrap());
    assert!(matches!(
        ValueType::new(var, TypeContext::Value, &limits),
        Err(TypeError::SignatureOnly("var"))
    ));
    let var = ValueTypeKind::Var(Identifier::parse("t").unwrap());
    assert!(ValueType::new(var, TypeContext::Signature, &limits).is_ok());
}

#[test]
fn record_type_reads_back() {
    let limits = Limits::default();
    let t = ValueType::new(
        ValueTypeKind::Record(vec![
            ("zz".to_string(), Port::new(prim(PrimitiveType::Bytes), true)),
            ("a".to_string(), Port::new(prim(PrimitiveType::Boolean), false)),
        ]),
        TypeContext::Value,
        &limits,
    )
    .unwrap();
    let bytes = t.encode(TypeContext::Value, &limits).unwrap();
    let back = ValueType::decode(&bytes, TypeContext::Value, &limits).unwrap();
    assert_eq!(back.encode(TypeContext::Value, &limits).unwrap(), bytes);
    match back.kind() {
        ValueTypeKind::Record(fields) => {
            let names: Vec<&str> = fields.iter().map(|(n, _)| n.as_str()).collect();
            assert_eq!(names, vec!["a", "zz"]);
        }
        _ => panic!("record stays a record"),
    }
}

#[test]
fn type_records_use_tagged_arrays() {
    let limits = Limits::default();
    let list = ValueType::new(
        ValueTypeKind::List(Box::new(prim(PrimitiveType::Integer))),
        TypeContext::Value,
        &limits,
    )
    .unwrap();
    match list.to_value(TypeContext::Value, &limits).unwrap() {
        Value::Array(a) => {
            assert_eq!(a.len(), 2);
            assert!(matches!(&a[0], Value::Text(t) if t == "list"));
            assert!(matches!(&a[1], Value::Text(t) if t == "integer"));
        }
        _ => panic!("a list type is a tagged array"),
    }
    let schema = ValueType::new(ValueTypeKind::Schema(hash_bytes(b"s")), TypeContext::Value, &limits).unwrap();
    let v = schema.to_value(TypeContext::Value, &limits).unwrap();
    assert!(ValueType::from_value(&v, TypeContext::Value, &limits).is_ok());
}

#[test]
fn port_records_read_back() {
    let limits = Limits::default();
    let p = Port::new(prim(PrimitiveType::Json), false);
    let bytes = p.encode(TypeContext::Value, &limits).unwrap();
    let back = Port::decode(&bytes, TypeContext::Value, &limits).unwrap();
    assert!(!back.required());
    assert!(matches!(back.value_type().kind(), ValueTypeKind::Primitive(PrimitiveType::Json)));
}

use htlk_executable::cbor::error::ErrorKind;
use htlk_executable::cbor::limits::Limits;
use htlk_executable::cbor::value::{Value, ValueMap};
use htlk_executable::digest::hash_bytes;
use htlk_executable::identifier::Identifier;
use htlk_executable::metadata::{
    EngineIdentity, ExecutionProfile, FunctionSignature, Library, McpBinding, McpBindingKind, McpTransport,
    MetadataError, ServerIdentity,
};
use htlk_executable::types::model::TypeError;
use htlk_executable::types::{Port, PrimitiveType, ValueType, ValueTypeKind};

fn id(s: &str) -> Identifier {
    Identifier::parse(s).unwrap()
}

fn port(p: PrimitiveType, required: bool) -> Port {
    Port::new(ValueType::primitive(p), required)
}

fn var_port(name: &str) -> Port {
    Port::new(ValueType { kind: ValueTypeKind::Var(id(name)) }, true)
}

fn engine(name: &str) -> EngineIdentity {
    EngineIdentity::new(
        name.to_string(),
        "1.0".to_string(),
        "2024".to_string(),
        hash_bytes(name.as_bytes()),
        &Limits::default(),
    )
    .unwrap()
}

fn server() -> ServerIdentity {
    ServerIdentity::new(
        "prod".to_string(),
        McpTransport::StreamableHttp,
        "srv".to_string(),
        "0.9".to_string(),
        &Limits::default(),
    )
    .unwrap()
}

#[test]
fn transports_have_exact_spellings() {
    assert_eq!(McpTransport::Stdio.as_str(), "stdio");
    assert!(matches!(McpTransport::parse("stdio"), Ok(McpTransport::Stdio)));
    assert!(matches!(McpTransport::parse(McpTransport::StreamableHttp.as_str()), Ok(McpTransport::StreamableHttp)));
    assert!(matches!(McpTransport::parse("STDIO"), Err(MetadataError::UnsupportedTransport)));
}

#[test]
fn engine_record_reads_back() {
    let limits = Limits::default();
    let e = engine("regex");
    let bytes = e.encode(&limits).unwrap();
    let back = EngineIdentity::decode(&bytes, &limits).unwrap();
    assert_eq!(back.name(), "regex");
    assert_eq!(back.version(), "1.0");
    assert_eq!(back.data_version(), "2024");
    assert_eq!(back.implementation_digest(), e.implementation_digest());
}

#[test]
fn server_record_reads_back_and_has_a_digest() {
    let limits = Limits::default();
    let s = server();
    let v = s.to_value(&limits).unwrap();
    let back = ServerIdentity::from_value(&v, &limits).unwrap();
    assert_eq!(back.deployment_id(), "prod");
    assert_eq!(back.transport(), McpTransport::StreamableHttp);
    assert_eq!(s.digest(&limits).unwrap(), back.digest(&limits).unwrap());
}

#[test]
fn closed_records_refuse_unknown_fields() {
    let limits = Limits::default();
    let e = engine("regex");
    let mut v = e.to_value(&limits).unwrap();
    if let Value::Object(m) = &mut v {
        m.entries.push(("extra".to_string(), Value::Null));
    }
    assert!(matches!(EngineIdentity::from_value(&v, &limits), Err(MetadataError::UnknownField("engine"))));
}

#[test]
fn profile_record_reads_back() {
    let limits = Limits::default();
    let p = ExecutionProfile::new(
        hash_bytes(b"core"),
        engine("regex"),
        engine("schema"),
        engine("uri"),
        hash_bytes(b"policy"),
        &limits,
    )
    .unwrap();
    let bytes = p.encode(&limits).unwrap();
    let back = ExecutionProfile::decode(&bytes, &limits).unwrap();
    assert_eq!(back.regex_engine().name(), "regex");
    assert_eq!(back.schema_validator().name(), "schema");
    assert_eq!(back.uri_template_engine().name(), "uri");
    assert_eq!(back.core_digest(), hash_bytes(b"core"));
    assert_eq!(back.policy_document(), hash_bytes(b"policy"));
}

#[test]
fn binding_records_read_back_for_each_kind() {
    let limits = Limits::default();
    let kinds = vec![
        McpBindingKind::Tool {
            name: "search".to_string(),
            input_schema: hash_bytes(b"in"),
            output_schema: hash_bytes(b"out"),
        },
        McpBindingKind::Resource { uri: "file:///a".to_string() },
        McpBindingKind::Template { uri_template: "file:///{x}".to_string() },
        McpBindingKind::Prompt { name: "greet".to_string() },
    ];
    for kind in kinds {
        let b = McpBinding::new(server(), hash_bytes(b"descriptor"), kind, &limits).unwrap();
        let bytes = b.encode(&limits).unwrap();
        let back = McpBinding::decode(&bytes, &limits).unwrap();
        assert_eq!(back.descriptor(), hash_bytes(b"descriptor"));
        assert_eq!(back.encode(&limits).unwrap(), bytes);
        assert_eq!(b.digest(&limits).unwrap(), back.digest(&limits).unwrap());
    }
}

#[test]
fn binding_with_unknown_kind_is_refused() {
    let limits = Limits::default();
    let b = McpBinding::new(server(), hash_bytes(b"d"), McpBindingKind::Prompt { name: "p".to_string() }, &limits).unwrap();
    let mut v = b.to_value(&limits).unwrap();
    if let Value::Object(m) = &mut v {
        for (k, val) in m.entries.iter_mut() {
            if k == "kind" {
                *val = Value::Text("other".to_string());
            }
        }
    }
    assert!(matches!(McpBinding::from_value(&v, &limits), Err(MetadataError::UnknownBindingKind)));
}

fn identity_signature() -> FunctionSignature {
    FunctionSignature::new(vec![id("t")], vec![var_port("t"), port(PrimitiveType::Integer, false)], var_port("t"), &Limits::default())
        .unwrap()
}

#[test]
fn signature_keeps_declaration_order_and_reads_back() {
    let limits = Limits::default();
    let s = identity_signature();
    assert_eq!(s.type_parameters().len(), 1);
    assert_eq!(s.parameters().len(), 2);
    assert!(!s.parameters()[1].required());
    let bytes = s.encode(&limits).unwrap();
    let back = FunctionSignature::decode(&bytes, &limits).unwrap();
    assert_eq!(back.type_parameters()[0].as_str(), "t");
    assert!(back.return_port().required());
    assert_eq!(back.encode(&limits).unwrap(), bytes);
    match s.to_value(&limits).unwrap() {
        Value::Object(m) => {
            let keys: Vec<&str> = m.entries.iter().map(|(k, _)| k.as_str()).collect();
            assert_eq!(keys, vec!["returns", "parameters", "type_parameters"]);
        }
        _ => panic!("signature record is a map"),
    }
}

#[test]
fn signature_refuses_repeated_declarations() {
    let r = FunctionSignature::new(vec![id("t"), id("t")], vec![], port(PrimitiveType::Null, true), &Limits::default());
    assert!(matches!(r, Err(MetadataError::DuplicateTypeParameter)));
}

#[test]
fn signature_port_errors_are_type_errors() {
    let fields = vec![
        ("a".to_string(), port(PrimitiveType::Null, true)),
        ("a".to_string(), port(PrimitiveType::Bytes, true)),
    ];
    let bad = Port::new(ValueType { kind: ValueTypeKind::Record(fields) }, true);
    let r = FunctionSignature::new(vec![], vec![bad], port(PrimitiveType::Null, true), &Limits::default());
    match r {
        Err(MetadataError::Type(TypeError::Codec(e))) => assert_eq!(e.kind, ErrorKind::DuplicateMapKey),
        other => panic!("unexpected {other:?}"),
    }
}

fn library() -> Library {
    Library::new(
        "lib".to_string(),
        "1.2.3".to_string(),
        hash_bytes(b"impl"),
        vec![(id("zeta"), identity_signature()), (id("alpha"), identity_signature())],
        &Limits::default(),
    )
    .unwrap()
}

#[test]
fn library_orders_functions_and_finds_them() {
    let l = library();
    let names: Vec<&str> = l.functions().iter().map(|(n, _)| n.as_str()).collect();
    assert_eq!(names, vec!["alpha", "zeta"]);
    assert!(l.function("zeta").is_some());
    assert!(l.function("beta").is_none());
    assert_eq!(l.library_id(), "lib");
    assert_eq!(l.version(), "1.2.3");
}

#[test]
fn library_record_reads_back() {
    let limits = Limits::default();
    let l = library();
    let bytes = l.encode(&limits).unwrap();
    let back = Library::decode(&bytes, &limits).unwrap();
    assert_eq!(back.implementation_digest(), hash_bytes(b"impl"));
    assert_eq!(back.functions().len(), 2);
    assert_eq!(back.encode(&limits).unwrap(), bytes);
    match l.to_value(&limits).unwrap() {
        Value::Object(m) => {
            let keys: Vec<&str> = m.entries.iter().map(|(k, _)| k.as_str()).collect();
            assert_eq!(keys, vec!["version", "functions", "library_id", "implementation_digest"]);
        }
        _ => panic!("library record is a map"),
    }
}

#[test]
fn library_refuses_repeated_function_names() {
    let r = Library::new(
        "lib".to_string(),
        "1".to_string(),
        hash_bytes(b"impl"),
        vec![(id("f"), identity_signature()), (id("f"), identity_signature())],
        &Limits::default(),
    );
    match r {
        Err(MetadataError::Codec(e)) => assert_eq!(e.kind, ErrorKind::DuplicateMapKey),
        other => panic!("unexpected {other:?}"),
    }
}

#[test]
fn library_functions_field_must_be_a_map() {
    let limits = Limits::default();
    let mut v = library().to_value(&limits).unwrap();
    if let Value::Object(m) = &mut v {
        m.entries[1].1 = Value::Array(vec![]);
    }
    assert!(matches!(Library::from_value(&v, &limits), Err(MetadataError::InvalidShape("functions"))));
    let empty = Value::Object(ValueMap { entries: vec![] });
    assert!(matches!(Library::from_value(&empty, &limits), Err(MetadataError::MissingField("functions"))));
}

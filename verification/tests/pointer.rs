use htlk_executable::cbor::error::{ErrorKind, LimitKind};
use htlk_executable::cbor::limits::Limits;
use htlk_executable::cbor::value::{Value, ValueMap};
use htlk_executable::json_pointer::{JsonPointer, JsonPointerError};

fn tokens(p: &JsonPointer) -> Vec<&str> {
    p.tokens().iter().map(|s| s.as_str()).collect()
}

#[test]
fn pointers_decode_rfc_6901_escapes() {
    let limits = Limits::default();
    assert!(tokens(&JsonPointer::new("", &limits).unwrap()).is_empty());
    assert_eq!(tokens(&JsonPointer::new("/", &limits).unwrap()), vec![""]);
    assert_eq!(tokens(&JsonPointer::new("/a~1b/c~0d/", &limits).unwrap()), vec!["a/b", "c~d", ""]);
    assert_eq!(tokens(&JsonPointer::new("/é/x", &limits).unwrap()), vec!["é", "x"]);
    assert!(matches!(JsonPointer::new("a", &limits), Err(JsonPointerError::InvalidSyntax { offset: 0 })));
    assert!(matches!(JsonPointer::new("/é~2", &limits), Err(JsonPointerError::InvalidSyntax { offset: 3 })));
    assert!(matches!(JsonPointer::new("/ab~", &limits), Err(JsonPointerError::InvalidSyntax { offset: 3 })));
}

#[test]
fn pointers_render_back_to_their_text() {
    let limits = Limits::default();
    for text in ["", "/", "/a~1b/c~0d/", "/é/x", "//"] {
        assert_eq!(JsonPointer::new(text, &limits).unwrap().to_text(), text);
    }
}

#[test]
fn pointer_counts_are_bounded() {
    let limits = Limits {
        max_depth: 2,
        ..Limits::default()
    };
    assert!(JsonPointer::new("/a/b", &limits).is_ok());
    assert!(matches!(
        JsonPointer::new("/a/b/c", &limits),
        Err(JsonPointerError::LimitExceeded {
            limit: LimitKind::Depth,
            maximum: 2
        })
    ));
    let text = Limits {
        max_text_bytes: 1,
        ..Limits::default()
    };
    assert!(matches!(
        JsonPointer::new("/ab", &text),
        Err(JsonPointerError::LimitExceeded {
            limit: LimitKind::TextBytes,
            maximum: 1
        })
    ));
    let invalid = Limits {
        max_depth: 500,
        ..Limits::default()
    };
    assert!(matches!(
        JsonPointer::new("", &invalid),
        Err(JsonPointerError::Codec(e)) if e.kind() == &ErrorKind::InvalidLimits
    ));
}

#[test]
fn fragments_are_percent_decoded_first() {
    let limits = Limits::default();
    assert_eq!(tokens(&JsonPointer::from_fragment("#/a%25b/c+d", &limits).unwrap()), vec!["a%b", "c+d"]);
    assert_eq!(tokens(&JsonPointer::from_fragment("#/%C3%A9", &limits).unwrap()), vec!["é"]);
    assert!(tokens(&JsonPointer::from_fragment("#", &limits).unwrap()).is_empty());
    assert!(matches!(JsonPointer::from_fragment("/a", &limits), Err(JsonPointerError::InvalidFragment { offset: 0 })));
    assert!(matches!(JsonPointer::from_fragment("#/a b", &limits), Err(JsonPointerError::InvalidFragment { offset: 3 })));
    assert!(matches!(JsonPointer::from_fragment("#/%zz", &limits), Err(JsonPointerError::InvalidFragment { offset: 2 })));
    assert!(matches!(JsonPointer::from_fragment("#/a%FF", &limits), Err(JsonPointerError::InvalidUtf8 { offset: 2 })));
    assert!(matches!(JsonPointer::from_fragment("#anchor", &limits), Err(JsonPointerError::InvalidSyntax { offset: 0 })));
}

#[test]
fn pointers_resolve_members_and_indices() {
    let limits = Limits::default();
    let doc = Value::Object(
        ValueMap::try_from_entries(vec![
            ("a".to_string(), Value::Array(vec![Value::Integer(10), Value::Null])),
            ("b/c".to_string(), Value::Bool(true)),
        ])
        .unwrap(),
    );
    let resolve = |text: &str| {
        let p = JsonPointer::new(text, &limits).unwrap();
        p.resolve(&doc).map(|v| format!("{v:?}")).map_err(|e| format!("{e:?}"))
    };
    assert_eq!(resolve("/a/0"), Ok("Integer(10)".to_string()));
    assert_eq!(resolve("/a/1"), Ok("Null".to_string()));
    assert_eq!(resolve("/b~1c"), Ok("Bool(true)".to_string()));
    assert_eq!(resolve("/a/2"), Err("MissingTarget { segment: 1 }".to_string()));
    assert_eq!(resolve("/a/-"), Err("MissingTarget { segment: 1 }".to_string()));
    assert_eq!(resolve("/a/01"), Err("InvalidIndex { segment: 1 }".to_string()));
    assert_eq!(resolve("/a/x"), Err("InvalidIndex { segment: 1 }".to_string()));
    assert_eq!(resolve("/a/99999999999999999999999"), Err("MissingTarget { segment: 1 }".to_string()));
    assert_eq!(resolve("/b~1c/x"), Err("ScalarTraversal { segment: 1 }".to_string()));
    assert_eq!(resolve("/zz"), Err("MissingTarget { segment: 0 }".to_string()));
}

use htlk_executable::cbor::error::LimitKind;
use htlk_executable::cbor::limits::Limits;
use htlk_executable::cbor::value::{Value, ValueMap};
use htlk_executable::uri_template::{check_expansion, variables, ExpansionError, UriTemplateError};

#[test]
fn rfc_operators_modifiers_and_exact_names() {
    for op in ["", "+", "#", ".", "/", ";", "?", "&"] {
        let t = format!(
            "https://example.test/{{{op}Name:9999,a.b*,%61,a,%6A,%6a,Name}}/{{Name:1}}"
        );
        let names = variables(&t, &Limits::default()).unwrap();
        assert_eq!(names, ["%61", "%6A", "%6a", "Name", "a", "a.b"]);
    }
    for t in [
        "",
        "relative/path",
        "https://例.test/é",
        "%7bnot_a_variable%7D",
        "\u{e000}",
        "\u{10fffd}",
    ] {
        assert!(variables(t, &Limits::default()).unwrap().is_empty());
    }
}

#[test]
fn malformed_syntax_and_reserved_extensions_fail() {
    for t in [
        "{",
        "}",
        "{}",
        "{?}",
        "{{x}}",
        "{x,}",
        "{,x}",
        "{x,,y}",
        "{x..y}",
        "{x.}",
        "{x-y}",
        "{é}",
        "{x:0}",
        "{x:01}",
        "{x:10000}",
        "{x:}",
        "{x:1*}",
        "{x**}",
        "{x%}",
        "{x%0g}",
        "{!x}",
        "{@x}",
        "{=x}",
        "{|x}",
        "{(x)}",
        "a b",
        "a'b",
        "%",
        "%gg",
        "\u{7f}",
        "\u{9f}",
        "\u{fdd0}",
        "\u{ffff}",
        "\u{1ffff}",
        "\u{e0000}",
    ] {
        assert!(
            matches!(
                variables(t, &Limits::default()),
                Err(UriTemplateError::InvalidUriTemplate { .. })
            ),
            "{t:?}"
        );
    }
}

#[test]
fn variable_discovery_has_independent_logical_bounds() {
    let l = Limits {
        max_collection_entries: 1,
        max_total_values: 2,
        ..Limits::default()
    };
    assert!(variables("{x}{x}", &l).is_ok());
    assert!(matches!(
        variables("{x}{y}", &l),
        Err(UriTemplateError::LimitExceeded {
            limit: LimitKind::CollectionEntries,
            ..
        })
    ));
    assert!(matches!(
        variables("{x}{x}{x}", &l),
        Err(UriTemplateError::LimitExceeded {
            limit: LimitKind::TotalValues,
            ..
        })
    ));
}

#[test]
fn syntax_errors_report_the_byte_offset_of_the_failing_part() {
    let l = Limits::default();
    assert_eq!(
        variables("é{x,y-z}", &l),
        Err(UriTemplateError::InvalidUriTemplate { offset: 5 })
    );
    assert_eq!(
        variables("ab{x", &l),
        Err(UriTemplateError::InvalidUriTemplate { offset: 2 })
    );
    assert_eq!(
        variables("a%zz", &l),
        Err(UriTemplateError::InvalidUriTemplate { offset: 1 })
    );
    assert_eq!(
        variables("{+}", &l),
        Err(UriTemplateError::InvalidUriTemplate { offset: 2 })
    );
}

#[test]
fn names_are_sorted_by_utf8_and_counted_once() {
    let l = Limits::default();
    assert_eq!(variables("{b}{a}{b}{A}", &l).unwrap(), ["A", "a", "b"]);
    assert_eq!(variables("{x*}{x:3}", &l).unwrap(), ["x"]);
}

fn text_map(entries: Vec<(&str, &str)>) -> Value {
    Value::Object(ValueMap {
        entries: entries.into_iter().map(|(k, v)| (k.to_string(), Value::Text(v.to_string()))).collect(),
    })
}

#[test]
fn expansion_arguments_must_match_the_variables() {
    let l = Limits::default();
    let pairs = check_expansion("https://x.test/{a}/{b}", &text_map(vec![("a", "1"), ("b", "2")]), &l).unwrap();
    assert_eq!(pairs, vec![("a".to_string(), "1".to_string()), ("b".to_string(), "2".to_string())]);
    assert!(matches!(
        check_expansion("{a}{b}", &text_map(vec![("a", "1")]), &l),
        Err(ExpansionError::ArgumentMismatch)
    ));
    assert!(matches!(
        check_expansion("{a}", &text_map(vec![("c", "1")]), &l),
        Err(ExpansionError::ArgumentMismatch)
    ));
    assert!(matches!(
        check_expansion("{a}", &Value::Integer(1), &l),
        Err(ExpansionError::ArgumentMismatch)
    ));
    assert!(matches!(check_expansion("{x,}", &text_map(vec![]), &l), Err(ExpansionError::Template(_))));
    let mut small = Limits::default();
    small.max_text_bytes = 3;
    assert!(matches!(
        check_expansion("{abc}", &text_map(vec![("abc", "1")]), &small),
        Err(ExpansionError::LimitExceeded { .. })
    ));
}

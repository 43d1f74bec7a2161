use htlk_executable::document::{check_graph_id, validate_uri, DocumentError};

#[test]
fn graph_names_are_dotted_identifiers() {
    assert!(check_graph_id("billing.invoice_flow").is_ok());
    assert!(check_graph_id("single").is_ok());
    assert!(matches!(check_graph_id("a..b"), Err(DocumentError::InvalidGraphId)));
    assert!(matches!(check_graph_id(""), Err(DocumentError::InvalidGraphId)));
    assert!(matches!(check_graph_id("a."), Err(DocumentError::InvalidGraphId)));
    assert!(matches!(check_graph_id("Billing"), Err(DocumentError::InvalidGraphId)));
    assert!(matches!(check_graph_id("a.b__c"), Err(DocumentError::InvalidGraphId)));
}

#[test]
fn schema_roots_are_fragment_free_absolute_uris() {
    assert!(validate_uri("https://example.com/schemas/").is_ok());
    assert!(validate_uri("https://example.com/a%2Fb").is_ok());
    assert!(matches!(validate_uri("https://example.com/#part"), Err(DocumentError::InvalidSchemaUri)));
    assert!(matches!(validate_uri("https://example.com/%zz"), Err(DocumentError::InvalidSchemaUri)));
    assert!(matches!(validate_uri("https://example.com/%4"), Err(DocumentError::InvalidSchemaUri)));
    assert!(matches!(validate_uri("https://example.com/a b"), Err(DocumentError::InvalidSchemaUri)));
    assert!(matches!(validate_uri("relative/path"), Err(DocumentError::InvalidSchemaUri)));
    assert!(matches!(validate_uri("https://ex\u{e4}mple.com/"), Err(DocumentError::InvalidSchemaUri)));
    assert!(matches!(validate_uri("https://example.com/{x}"), Err(DocumentError::InvalidSchemaUri)));
}

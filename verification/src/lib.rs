//! Canonical HTLK executable records: a deterministic CBOR value model and
//! codec, identifiers, digests, JSON pointers, URI-template discovery,
//! execution options and metadata records.

pub mod cbor;
pub mod digest;
pub mod digest_order;
pub mod document;
pub mod envelope;
pub mod expression;
pub mod graph;
pub mod identifier;
pub mod json;
pub mod json_pointer;
pub mod mcp_protocol;
pub mod metadata;
pub mod native_schema;
pub mod options;
pub mod policy;
pub mod record_accounting;
pub mod text;
pub mod types;
pub mod uri_template;

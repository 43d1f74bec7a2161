# htlk_executable

Canonical HTLK executable records, verified with Verus.

- `src/cbor`: the deterministic CBOR value model, encoder and decoder, with
  the exact streaming outcome of encoding and decoding under limits.
- `src/types`, `src/expression`, `src/metadata`, `src/options`: typed records
  (types and ports, expressions and prompt templates, engine, server, profile,
  binding and library metadata, execution limits and retry policies), each
  built under budgeted accounting and read back canonically or normalizing.
- `src/graph`: port tables, edges, node operations (evaluation, MCP call,
  nested scope, bounded loop, wait), nodes with their local port-layout
  checks, and scopes with their node and edge name order; each is built,
  encoded, hashed and read back.
- `src/envelope.rs`: executable envelopes, an opaque payload under a fixed
  format and version with a SHA-256 fingerprint checked on decoding.
- `src/digest.rs`, `src/digest_order.rs`: SHA-256 digests, their text form and
  order; record digests with domain prefixes.
- `src/document.rs`: the document error vocabulary, qualified graph names,
  and schema retrieval roots (a `url` parse plus byte-level checks).
- `src/json_pointer.rs`, `src/uri_template.rs`, `src/json.rs`: RFC 6901
  pointers, RFC 6570 syntax checking and argument checks, the JSON number
  grammar with its safe-integer check, and JSON string tokens (escapes,
  surrogate pairs and decoded-length budget, decoded by `serde_json`).
- `app/`: ordinary Rust around the library: URI-template expansion through
  `iri_string`, and the binary64 conversion of JSON number tokens.

Not in the library: the canonical document itself (the top-level table of
scopes, templates, bindings, libraries, schema roots and JSON documents) and
the JSON document parser with its RFC 8785 output, whose numbers need
binary64 conversion and formatting.

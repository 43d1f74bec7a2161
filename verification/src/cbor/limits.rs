use vstd::prelude::*;

use super::error::{Error, ErrorKind};

verus! {

/// The default maximum value depth.
pub const DEFAULT_DEPTH: usize = 64;

/// The largest depth ceiling this implementation supports.
pub const MAX_SUPPORTED_DEPTH: usize = 128;

/// The default ceiling for document, text, byte-string and payload bytes.
pub const DEFAULT_BYTES: usize = 16777216;

/// The default ceiling for value and collection-entry counts.
pub const DEFAULT_COUNT: usize = 1048576;

/// Resource ceilings for one codec or conversion operation.
///
/// Limits never affect canonical bytes. Zero is a valid ceiling: depth zero
/// allows only a root value with no children, and a zero document budget
/// admits no complete value.
#[derive(Clone, Debug)]
pub struct Limits {
    /// Maximum complete document bytes, including headers.
    pub max_document_bytes: usize,
    /// Maximum value depth; the root is zero and each child adds one.
    pub max_depth: usize,
    /// Maximum number of values (map keys included) in one record.
    pub max_total_values: usize,
    /// Maximum entries in a single array or map.
    pub max_collection_entries: usize,
    /// Maximum UTF-8 bytes of a single text string.
    pub max_text_bytes: usize,
    /// Maximum bytes of a single byte string.
    pub max_byte_string_bytes: usize,
    /// Maximum text and byte-string payload bytes in one record.
    pub max_total_payload_bytes: usize,
}

impl Limits {
    /// Whether this configuration is within implementation capabilities.
    pub open spec fn spec_valid(&self) -> bool {
        self.max_depth <= MAX_SUPPORTED_DEPTH
    }

    /// Validates implementation constraints on this configuration.
    ///
    /// The default depth is 64; depths above 128 are unsupported. The byte
    /// ceilings may be raised by trusted callers.
    pub fn validate(&self) -> (res: Result<(), Error>)
        ensures
            res is Ok <==> self.spec_valid(),
            res matches Err(e) ==> e.kind == ErrorKind::InvalidLimits && e.offset_spec() is None,
            res matches Err(e) ==> e == crate::cbor::error::spec_plain_error(ErrorKind::InvalidLimits),
    {
        if self.max_depth > MAX_SUPPORTED_DEPTH {
            return Err(Error::new(ErrorKind::InvalidLimits));
        }
        Ok(())
    }

    /// The default ceilings: 16 MiB of bytes and depth 64.
    pub fn default_limits() -> (res: Limits)
        ensures
            res.max_document_bytes == DEFAULT_BYTES,
            res.max_depth == DEFAULT_DEPTH,
            res.max_total_values == DEFAULT_COUNT,
            res.max_collection_entries == DEFAULT_COUNT,
            res.max_text_bytes == DEFAULT_BYTES,
            res.max_byte_string_bytes == DEFAULT_BYTES,
            res.max_total_payload_bytes == DEFAULT_BYTES,
            res.spec_valid(),
    {
        Limits {
            max_document_bytes: DEFAULT_BYTES,
            max_depth: DEFAULT_DEPTH,
            max_total_values: DEFAULT_COUNT,
            max_collection_entries: DEFAULT_COUNT,
            max_text_bytes: DEFAULT_BYTES,
            max_byte_string_bytes: DEFAULT_BYTES,
            max_total_payload_bytes: DEFAULT_BYTES,
        }
    }
}

impl Default for Limits {
    fn default() -> (res: Limits)
        ensures
            res.max_document_bytes == DEFAULT_BYTES,
            res.max_depth == DEFAULT_DEPTH,
            res.max_total_values == DEFAULT_COUNT,
            res.max_collection_entries == DEFAULT_COUNT,
            res.max_text_bytes == DEFAULT_BYTES,
            res.max_byte_string_bytes == DEFAULT_BYTES,
            res.max_total_payload_bytes == DEFAULT_BYTES,
    {
        Limits::default_limits()
    }
}

} // verus!

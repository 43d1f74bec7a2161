//! Native JSON Schema validation controls and diagnostic locations.

use vstd::prelude::*;

use crate::digest::Digest;
use crate::json_pointer::JsonPointer;

verus! {

/// The default ceiling on one schema regex pattern: 64 KiB.
pub const DEFAULT_MAX_PATTERN_BYTES: usize = 65536;

/// The default native regex compiler size ceiling: 2 MiB.
pub const DEFAULT_MAX_REGEX_COMPILED_BYTES: usize = 2097152;

/// Supported native backend controls. These are not a whole-validation fuel or
/// deadline guarantee.
#[derive(Clone, Copy, Debug, PartialEq, Eq, Structural)]
pub struct NativeSchemaOptions {
    /// Maximum UTF-8 bytes in an individual schema regex pattern.
    pub max_pattern_bytes: usize,
    /// Native regex compiler size ceiling per pattern.
    pub max_regex_compiled_bytes: usize,
}

impl Default for NativeSchemaOptions {
    fn default() -> (res: NativeSchemaOptions)
        ensures
            res.max_pattern_bytes == DEFAULT_MAX_PATTERN_BYTES,
            res.max_regex_compiled_bytes == DEFAULT_MAX_REGEX_COMPILED_BYTES,
    {
        NativeSchemaOptions {
            max_pattern_bytes: DEFAULT_MAX_PATTERN_BYTES,
            max_regex_compiled_bytes: DEFAULT_MAX_REGEX_COMPILED_BYTES,
        }
    }
}

/// A schema location within an unsorted canonical document.
#[derive(Debug)]
pub struct SchemaDiagnosticLocation {
    /// Original raw document digest, never a private rewritten resource URI.
    pub document: Digest,
    /// Schema location within the unsorted document.
    pub pointer: JsonPointer,
}

} // verus!

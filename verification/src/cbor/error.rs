use vstd::prelude::*;
use vstd::string::*;

use super::limits::MAX_SUPPORTED_DEPTH;
use crate::text::{push_decimal, spec_decimal};

verus! {

/// Why a value was rejected as noncanonical; carried only for diagnostics.
#[derive(Clone, Copy, Debug, PartialEq, Eq, Structural)]
pub enum CanonicalityReason {
    /// An integer or length header is wider than necessary.
    NonminimalHeader,
    /// An indefinite-length marker was used.
    IndefiniteLength,
    /// A float encoding is wider than necessary.
    WideFloat,
    /// Negative zero was encoded.
    NegativeZero,
    /// A Boolean or null used a wide simple-value encoding.
    WideSimple,
}

/// Resources bounded by codec limits.
#[derive(Clone, Copy, Debug, PartialEq, Eq, Structural)]
#[non_exhaustive]
pub enum LimitKind {
    /// Complete encoded document size, including headers.
    DocumentBytes,
    /// Value depth, with the root at zero.
    Depth,
    /// Number of values, map keys included.
    TotalValues,
    /// Entries of one array or map.
    CollectionEntries,
    /// Bytes of one text string.
    TextBytes,
    /// Bytes of one byte string.
    ByteStringBytes,
    /// Text and byte-string payload bytes of one record.
    TotalPayloadBytes,
}

/// A codec failure category, independent of runtime error codes.
#[derive(Clone, Copy, Debug, PartialEq, Eq, Structural)]
#[non_exhaustive]
pub enum ErrorKind {
    /// The input ended before a complete value could be read.
    UnexpectedEnd,
    /// Bytes followed the complete top-level value.
    TrailingData,
    /// Text was not valid UTF-8.
    InvalidUtf8,
    /// The CBOR type is outside the HTLK profile.
    UnsupportedType,
    /// An integer cannot be represented as a signed 64-bit value.
    IntegerOutOfRange,
    /// A float was NaN or infinite.
    NonFiniteFloat,
    /// A value did not use its required canonical representation.
    NonCanonicalEncoding,
    /// Two map entries have the same exact key.
    DuplicateMapKey,
    /// Encoded map keys were not in canonical order.
    MapKeyOutOfOrder,
    /// A configured resource ceiling was exceeded.
    LimitExceeded {
        /// The exhausted resource.
        limit: LimitKind,
        /// The configured ceiling.
        maximum: usize,
    },
    /// A limit configuration exceeds implementation capabilities.
    InvalidLimits,
    /// A fallible memory reservation failed.
    AllocationFailed,
}

/// A codec failure with an optional zero-based input byte offset.
///
/// Equality compares only the category and offset, never the private
/// diagnostic reason. No error retains input contents.
#[derive(Clone, Debug)]
pub struct Error {
    /// The failure category.
    pub kind: ErrorKind,
    /// The offset, meaningful only when `has_offset` holds.
    pub offset: usize,
    /// Whether the failure concerns a particular input offset.
    pub has_offset: bool,
    /// Diagnostic detail for noncanonical encodings.
    pub reason: Option<CanonicalityReason>,
}

/// An error of a category, without offset or reason.
pub open spec fn spec_plain_error(kind: ErrorKind) -> Error {
    Error { kind, offset: 0, has_offset: false, reason: None }
}

impl Error {
    /// The input offset this error concerns, if any.
    pub open spec fn offset_spec(&self) -> Option<usize> {
        if self.has_offset { Some(self.offset) } else { None }
    }

    /// An error of the given category without offset or reason.
    pub fn new(kind: ErrorKind) -> (res: Error)
        ensures
            res == spec_plain_error(kind),
            res.kind == kind,
            res.offset_spec() is None,
            res.reason is None,
    {
        Error { kind, offset: 0, has_offset: false, reason: None }
    }

    /// A noncanonical-encoding error carrying a diagnostic reason.
    pub fn noncanonical(reason: CanonicalityReason) -> (res: Error)
        ensures
            res.kind == ErrorKind::NonCanonicalEncoding,
            res.offset_spec() is None,
            res.reason == Some(reason),
    {
        Error { kind: ErrorKind::NonCanonicalEncoding, offset: 0, has_offset: false, reason: Some(reason) }
    }

    /// Supplies an offset without replacing a more precise nested one.
    pub fn at(self, offset: usize) -> (res: Error)
        ensures
            res.kind == self.kind,
            res.reason == self.reason,
            res.offset_spec() == (if self.has_offset { self.offset_spec() } else { Some(offset) }),
    {
        if self.has_offset {
            self
        } else {
            Error { kind: self.kind, offset, has_offset: true, reason: self.reason }
        }
    }

    /// Returns the structured failure category.
    pub fn kind(&self) -> (res: &ErrorKind)
        ensures
            *res == self.kind,
    {
        &self.kind
    }

    /// Returns the zero-based input byte offset, if this failure concerns input.
    pub fn offset(&self) -> (res: Option<usize>)
        ensures
            res == self.offset_spec(),
    {
        if self.has_offset { Some(self.offset) } else { None }
    }

    /// Human-facing prose for this error, ending in a full stop.
    pub open spec fn spec_message(&self) -> Seq<char> {
        spec_prose(self.kind, self.reason) + match self.offset_spec() {
            Some(o) => " at byte "@ + spec_decimal(o as nat),
            None => Seq::empty(),
        } + "."@
    }

    /// Renders [`Self::spec_message`]; it never includes input contents.
    pub fn message(&self) -> (res: String)
        ensures
            res@ == self.spec_message(),
    {
        let mut out = prose(&self.kind, &self.reason);
        if self.has_offset {
            out.append(" at byte ");
            push_decimal(&mut out, self.offset);
        }
        out.append(".");
        out
    }
}

/// The category prose, without offset or full stop.
pub open spec fn spec_prose(kind: ErrorKind, reason: Option<CanonicalityReason>) -> Seq<char> {
    match kind {
        ErrorKind::UnexpectedEnd => "CBOR input ended before the value was complete"@,
        ErrorKind::TrailingData => "CBOR input contains bytes after the complete top-level value"@,
        ErrorKind::InvalidUtf8 => "CBOR text is not valid UTF-8"@,
        ErrorKind::UnsupportedType => "The CBOR type is not supported by the HTLK profile in this position"@,
        ErrorKind::IntegerOutOfRange => "CBOR integer is outside the signed 64-bit range"@,
        ErrorKind::NonFiniteFloat => "CBOR floating-point value is NaN or infinite"@,
        ErrorKind::NonCanonicalEncoding => match reason {
            None => "CBOR value does not use its required canonical encoding"@,
            Some(CanonicalityReason::NonminimalHeader) => "CBOR integer or length header is wider than necessary"@,
            Some(CanonicalityReason::IndefiniteLength) => "The CBOR header uses an indefinite-length marker, which HTLK does not allow"@,
            Some(CanonicalityReason::WideFloat) => "CBOR floating-point encoding is wider than necessary"@,
            Some(CanonicalityReason::NegativeZero) => "CBOR encodes negative zero, but canonical encoding requires positive zero"@,
            Some(CanonicalityReason::WideSimple) => "CBOR Boolean or null encoding is wider than necessary"@,
        },
        ErrorKind::DuplicateMapKey => "CBOR map contains a duplicate key"@,
        ErrorKind::MapKeyOutOfOrder => "CBOR map keys are not in canonical order"@,
        ErrorKind::LimitExceeded { limit, maximum } => match limit {
            LimitKind::DocumentBytes => "CBOR document size exceeds the configured maximum of "@ + spec_decimal(maximum as nat) + " bytes"@,
            LimitKind::Depth => "CBOR nesting exceeds the configured maximum depth of "@ + spec_decimal(maximum as nat),
            LimitKind::TotalValues => "CBOR value count exceeds the configured maximum of "@ + spec_decimal(maximum as nat),
            LimitKind::CollectionEntries => "CBOR collection entries exceed the configured maximum of "@ + spec_decimal(maximum as nat),
            LimitKind::TextBytes => "CBOR text exceeds the configured maximum of "@ + spec_decimal(maximum as nat) + " bytes"@,
            LimitKind::ByteStringBytes => "CBOR byte string exceeds the configured maximum of "@ + spec_decimal(maximum as nat) + " bytes"@,
            LimitKind::TotalPayloadBytes => "CBOR payload exceeds the configured maximum of "@ + spec_decimal(maximum as nat) + " bytes"@,
        },
        ErrorKind::InvalidLimits => "The configured CBOR depth limit exceeds the supported maximum of "@ + spec_decimal(MAX_SUPPORTED_DEPTH as nat),
        ErrorKind::AllocationFailed => "Could not allocate memory to process the CBOR value"@,
    }
}

fn prose(kind: &ErrorKind, reason: &Option<CanonicalityReason>) -> (res: String)
    ensures
        res@ == spec_prose(*kind, *reason),
{
    match kind {
        ErrorKind::UnexpectedEnd => String::from_str("CBOR input ended before the value was complete"),
        ErrorKind::TrailingData => String::from_str("CBOR input contains bytes after the complete top-level value"),
        ErrorKind::InvalidUtf8 => String::from_str("CBOR text is not valid UTF-8"),
        ErrorKind::UnsupportedType => String::from_str("The CBOR type is not supported by the HTLK profile in this position"),
        ErrorKind::IntegerOutOfRange => String::from_str("CBOR integer is outside the signed 64-bit range"),
        ErrorKind::NonFiniteFloat => String::from_str("CBOR floating-point value is NaN or infinite"),
        ErrorKind::NonCanonicalEncoding => match reason {
            None => String::from_str("CBOR value does not use its required canonical encoding"),
            Some(CanonicalityReason::NonminimalHeader) => String::from_str("CBOR integer or length header is wider than necessary"),
            Some(CanonicalityReason::IndefiniteLength) => String::from_str("The CBOR header uses an indefinite-length marker, which HTLK does not allow"),
            Some(CanonicalityReason::WideFloat) => String::from_str("CBOR floating-point encoding is wider than necessary"),
            Some(CanonicalityReason::NegativeZero) => String::from_str("CBOR encodes negative zero, but canonical encoding requires positive zero"),
            Some(CanonicalityReason::WideSimple) => String::from_str("CBOR Boolean or null encoding is wider than necessary"),
        },
        ErrorKind::DuplicateMapKey => String::from_str("CBOR map contains a duplicate key"),
        ErrorKind::MapKeyOutOfOrder => String::from_str("CBOR map keys are not in canonical order"),
        ErrorKind::LimitExceeded { limit, maximum } => {
            let mut out = match limit {
                LimitKind::DocumentBytes => String::from_str("CBOR document size exceeds the configured maximum of "),
                LimitKind::Depth => String::from_str("CBOR nesting exceeds the configured maximum depth of "),
                LimitKind::TotalValues => String::from_str("CBOR value count exceeds the configured maximum of "),
                LimitKind::CollectionEntries => String::from_str("CBOR collection entries exceed the configured maximum of "),
                LimitKind::TextBytes => String::from_str("CBOR text exceeds the configured maximum of "),
                LimitKind::ByteStringBytes => String::from_str("CBOR byte string exceeds the configured maximum of "),
                LimitKind::TotalPayloadBytes => String::from_str("CBOR payload exceeds the configured maximum of "),
            };
            push_decimal(&mut out, *maximum);
            match limit {
                LimitKind::DocumentBytes | LimitKind::TextBytes | LimitKind::ByteStringBytes
                | LimitKind::TotalPayloadBytes => out.append(" bytes"),
                _ => {},
            }
            out
        },
        ErrorKind::InvalidLimits => {
            let mut out = String::from_str("The configured CBOR depth limit exceeds the supported maximum of ");
            push_decimal(&mut out, MAX_SUPPORTED_DEPTH);
            out
        },
        ErrorKind::AllocationFailed => String::from_str("Could not allocate memory to process the CBOR value"),
    }
}

impl PartialEq for Error {
    fn eq(&self, other: &Self) -> (res: bool) {
        self.kind == other.kind && self.offset() == other.offset()
    }
}

impl vstd::std_specs::cmp::PartialEqSpecImpl for Error {
    open spec fn obeys_eq_spec() -> bool {
        true
    }

    open spec fn eq_spec(&self, other: &Error) -> bool {
        self.kind == other.kind && self.offset_spec() == other.offset_spec()
    }
}

impl Eq for Error {}

} // verus!

//! Exact local names matching `[a-z][a-z0-9]*(_[a-z0-9]+)*`.

use vstd::prelude::*;
use vstd::string::*;

verus! {

/// A lexical identifier failure, without retaining the submitted text.
#[derive(Clone, Copy, Debug, PartialEq, Eq, Structural)]
#[non_exhaustive]
pub enum ParseIdentifierError {
    /// The name is empty.
    Empty,
    /// The first byte is not an ASCII lowercase letter.
    InvalidStart,
    /// A later byte is outside ASCII lowercase letters, digits and underscore.
    InvalidCharacter {
        /// Zero-based byte offset of the invalid character's first byte.
        offset: usize,
    },
    /// An underscore is repeated or ends the name.
    InvalidSeparator {
        /// Zero-based byte offset of the repeated or trailing underscore.
        offset: usize,
    },
    /// Allocating the validated borrowed name failed.
    AllocationFailed,
}

/// ASCII lowercase letter.
pub open spec fn spec_is_lower(c: u8) -> bool {
    0x61 <= c <= 0x7a
}

/// ASCII lowercase letter or digit.
pub open spec fn spec_is_lower_or_digit(c: u8) -> bool {
    spec_is_lower(c) || (0x30 <= c <= 0x39)
}

/// The bytes spell `[a-z][a-z0-9]*(_[a-z0-9]+)*`: a lowercase start, then
/// lowercase letters, digits and single underscores, never a final underscore.
pub open spec fn spec_is_identifier(b: Seq<u8>) -> bool {
    &&& b.len() > 0
    &&& spec_is_lower(b[0])
    &&& forall|i: int| 0 < i < b.len() ==> spec_is_lower_or_digit(#[trigger] b[i]) || b[i] == 0x5f
    &&& forall|i: int| 0 < i < b.len() - 1 && #[trigger] b[i] == 0x5f ==> b[i + 1] != 0x5f
    &&& b[b.len() - 1] != 0x5f
}

/// The first spelling error met scanning left to right from `i`, given
/// whether the previous byte was an underscore; a trailing underscore is
/// reported after the scan.
pub open spec fn spec_scan(b: Seq<u8>, i: int, underscore: bool) -> Option<ParseIdentifierError>
    decreases b.len() - i,
{
    if i >= b.len() {
        if underscore { Some(ParseIdentifierError::InvalidSeparator { offset: (b.len() - 1) as usize }) } else { None }
    } else if spec_is_lower_or_digit(b[i]) {
        spec_scan(b, i + 1, false)
    } else if b[i] == 0x5f {
        if underscore { Some(ParseIdentifierError::InvalidSeparator { offset: i as usize }) } else { spec_scan(b, i + 1, true) }
    } else {
        Some(ParseIdentifierError::InvalidCharacter { offset: i as usize })
    }
}

/// The error reported for a spelling, or `None` when it is an identifier.
pub open spec fn spec_identifier_error(b: Seq<u8>) -> Option<ParseIdentifierError> {
    if b.len() == 0 {
        Some(ParseIdentifierError::Empty)
    } else if !spec_is_lower(b[0]) {
        Some(ParseIdentifierError::InvalidStart)
    } else {
        spec_scan(b, 1, false)
    }
}

proof fn lemma_scan_valid(b: Seq<u8>, i: int, underscore: bool)
    requires
        1 <= i <= b.len(),
        spec_is_lower(b[0]),
        underscore <==> b[i - 1] == 0x5f,
        forall|k: int| 0 < k < i ==> spec_is_lower_or_digit(#[trigger] b[k]) || b[k] == 0x5f,
        forall|k: int| 0 < k < i - 1 && #[trigger] b[k] == 0x5f ==> b[k + 1] != 0x5f,
    ensures
        spec_scan(b, i, underscore) is None <==> (
            (forall|k: int| 0 < k < b.len() ==> spec_is_lower_or_digit(#[trigger] b[k]) || b[k] == 0x5f)
            && (forall|k: int| 0 < k < b.len() - 1 && #[trigger] b[k] == 0x5f ==> b[k + 1] != 0x5f)
            && b[b.len() - 1] != 0x5f),
    decreases b.len() - i,
{
    if i < b.len() {
        if spec_is_lower_or_digit(b[i]) {
            lemma_scan_valid(b, i + 1, false);
        } else if b[i] == 0x5f {
            if !underscore {
                lemma_scan_valid(b, i + 1, true);
            } else {
                assert(b[i - 1] == 0x5f);
            }
        }
    }
}

/// Names are checked exactly: spelling errors are reported in the order met.
pub proof fn lemma_identifier_error_iff(b: Seq<u8>)
    ensures
        spec_identifier_error(b) is None <==> spec_is_identifier(b),
{
    if b.len() > 0 && spec_is_lower(b[0]) {
        lemma_scan_valid(b, 1, false);
    }
}

/// Checks a spelling, reporting the first error met.
pub fn validate(value: &str) -> (res: Result<(), ParseIdentifierError>)
    ensures
        res is Ok <==> spec_is_identifier(value.spec_bytes()),
        res matches Err(e) ==> spec_identifier_error(value.spec_bytes()) == Some(e),
{
    proof {
        lemma_identifier_error_iff(value.spec_bytes());
    }
    let bytes = value.as_bytes();
    if bytes.len() == 0 {
        return Err(ParseIdentifierError::Empty);
    }
    let first = bytes[0];
    if !(0x61 <= first && first <= 0x7a) {
        return Err(ParseIdentifierError::InvalidStart);
    }
    let mut underscore = false;
    let mut i: usize = 1;
    while i < bytes.len()
        invariant
            1 <= i <= bytes@.len(),
            bytes@ == value.spec_bytes(),
            spec_identifier_error(bytes@) == spec_scan(bytes@, i as int, underscore),
            spec_identifier_error(bytes@) is None <==> spec_is_identifier(bytes@),
        decreases bytes@.len() - i,
    {
        let c = bytes[i];
        if (0x61 <= c && c <= 0x7a) || (0x30 <= c && c <= 0x39) {
            underscore = false;
        } else if c == 0x5f {
            if underscore {
                return Err(ParseIdentifierError::InvalidSeparator { offset: i });
            }
            underscore = true;
        } else {
            return Err(ParseIdentifierError::InvalidCharacter { offset: i });
        }
        i = i + 1;
    }
    if underscore {
        return Err(ParseIdentifierError::InvalidSeparator { offset: bytes.len() - 1 });
    }
    Ok(())
}

/// An exact local name matching `[a-z][a-z0-9]*(_[a-z0-9]+)*`.
///
/// Only ASCII spelling is validated, without trimming or normalization.
/// Reserved roots, visibility and uniqueness are checked by consumers.
#[derive(Debug, PartialEq, Eq, PartialOrd, Ord, Hash)]
pub struct Identifier {
    value: String,
}

impl View for Identifier {
    type V = Seq<char>;

    closed spec fn view(&self) -> Seq<char> {
        self.value@
    }
}

impl Clone for Identifier {
    fn clone(&self) -> (res: Identifier)
        ensures
            res@ == self@,
    {
        proof {
            use_type_invariant(self);
        }
        Identifier { value: self.value.clone() }
    }
}

impl Identifier {
    #[verifier::type_invariant]
    spec fn well_formed(&self) -> bool {
        spec_is_identifier(vstd::utf8::encode_utf8(self.value@))
    }

    /// Validates an owned name without copying its storage.
    pub fn new(value: String) -> (res: Result<Identifier, ParseIdentifierError>)
        ensures
            res is Ok <==> spec_is_identifier(vstd::utf8::encode_utf8(value@)),
            res matches Ok(id) ==> id@ == value@,
            res matches Err(e) ==> spec_identifier_error(vstd::utf8::encode_utf8(value@)) == Some(e),
    {
        validate(value.as_str())?;
        Ok(Identifier { value })
    }

    /// Checks spelling before copying a borrowed name.
    pub fn parse(value: &str) -> (res: Result<Identifier, ParseIdentifierError>)
        ensures
            res is Ok <==> spec_is_identifier(value.spec_bytes()),
            res matches Ok(id) ==> id@ == value@,
            res matches Err(e) ==> spec_identifier_error(value.spec_bytes()) == Some(e),
    {
        validate(value)?;
        Ok(Identifier { value: value.to_owned() })
    }

    /// Borrows the exact validated name.
    pub fn as_str(&self) -> (res: &str)
        ensures
            res@ == self@,
            spec_is_identifier(res.spec_bytes()),
    {
        proof {
            use_type_invariant(self);
        }
        self.value.as_str()
    }

    /// Returns the owned string without copying it.
    pub fn into_string(self) -> (res: String)
        ensures
            res@ == self@,
            spec_is_identifier(vstd::utf8::encode_utf8(res@)),
    {
        proof {
            use_type_invariant(&self);
        }
        self.value
    }
}

} // verus!

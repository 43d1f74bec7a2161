//! RFC 6570 template syntax and variable discovery, without expansion.

use vstd::prelude::*;
use vstd::string::*;

use crate::cbor::error::LimitKind;
use crate::cbor::limits::Limits;
use crate::cbor::value::spec_utf8;
use crate::options::{sort_codes, spec_same_texts, spec_strings_sorted, spec_views};
use crate::text::{char_width, collect_chars, lemma_utf8_take, push_char, same_text};

verus! {

/// A template syntax or bounding failure.
#[derive(Clone, Copy, Debug, PartialEq, Eq, Structural)]
#[non_exhaustive]
pub enum UriTemplateError {
    /// Invalid RFC 6570 syntax at a byte offset of the template.
    InvalidUriTemplate {
        /// Zero-based byte offset.
        offset: usize,
    },
    /// Variable discovery exceeded a logical ceiling.
    LimitExceeded {
        /// Exhausted resource.
        limit: LimitKind,
        /// Configured ceiling.
        maximum: usize,
    },
}

/// The byte offset of char index `i`.
pub open spec fn spec_offset(c: Seq<char>, i: int) -> usize {
    spec_utf8(c.take(i)).len() as usize
}

/// The syntax error at char index `i`.
pub open spec fn spec_invalid(c: Seq<char>, i: int) -> UriTemplateError {
    UriTemplateError::InvalidUriTemplate { offset: spec_offset(c, i) }
}

/// An ASCII hex digit.
pub open spec fn spec_hex_char(c: char) -> bool {
    ('0' <= c <= '9') || ('a' <= c <= 'f') || ('A' <= c <= 'F')
}

/// A variable-name character other than `%` and `.`: ASCII letters, digits, `_`.
pub open spec fn spec_varchar(c: char) -> bool {
    ('0' <= c <= '9') || ('a' <= c <= 'z') || ('A' <= c <= 'Z') || c == '_'
}

/// A literal template character: RFC 6570 literals, excluding controls,
/// space, quotes, angle brackets, backslash, caret, backtick, braces, pipe,
/// and the Unicode noncharacters.
pub open spec fn spec_literal(c: char) -> bool {
    let n = c as u32;
    n == 0x21 || (0x23 <= n <= 0x24) || n == 0x26 || (0x28 <= n <= 0x3b) || n == 0x3d
        || (0x3f <= n <= 0x5b) || n == 0x5d || n == 0x5f || (0x61 <= n <= 0x7a) || n == 0x7e
        || (0xa0 <= n <= 0xd7ff) || (0xe000 <= n <= 0xfdcf) || (0xfdf0 <= n <= 0xffef)
        || (0xe1000 <= n <= 0xefffd)
        || (((0x10000 <= n <= 0xdfffd) || (0xf0000 <= n <= 0x10fffd)) && (n % 0x10000) <= 0xfffd)
}

/// An RFC 6570 operator.
pub open spec fn spec_operator(c: char) -> bool {
    c == '+' || c == '#' || c == '.' || c == '/' || c == ';' || c == '?' || c == '&'
}

/// A variable name from char `i`: dot-separated nonempty parts of name
/// characters and percent escapes.
pub open spec fn spec_name_scan(n: Seq<char>, i: int, at_part_start: bool) -> bool
    decreases n.len() - i,
{
    if i < 0 || i >= n.len() {
        !at_part_start
    } else if n[i] == '.' {
        !at_part_start && spec_name_scan(n, i + 1, true)
    } else if spec_varchar(n[i]) {
        spec_name_scan(n, i + 1, false)
    } else if n[i] == '%' && i + 2 < n.len() && spec_hex_char(n[i + 1]) && spec_hex_char(n[i + 2]) {
        spec_name_scan(n, i + 3, false)
    } else {
        false
    }
}

/// A valid variable name.
pub open spec fn spec_valid_name(n: Seq<char>) -> bool {
    spec_name_scan(n, 0, true)
}

/// The first index in `[k, e)` holding `ch`, or `e`.
pub open spec fn spec_find_char(c: Seq<char>, k: int, e: int, ch: char) -> int
    decreases e - k,
{
    if k >= e {
        e
    } else if c[k] == ch {
        k
    } else {
        spec_find_char(c, k + 1, e, ch)
    }
}

/// A prefix modifier: one to four decimal digits without a leading zero.
pub open spec fn spec_prefix_ok(c: Seq<char>, a: int, b: int) -> bool {
    &&& 1 <= b - a <= 4
    &&& '1' <= c[a] <= '9'
    &&& forall|k: int| a <= k < b ==> '0' <= #[trigger] c[k] <= '9'
}

/// The name range of the varspec `c[k..q]`, or `None` for a bad prefix modifier.
pub open spec fn spec_varspec_name(c: Seq<char>, k: int, q: int) -> Option<(int, int)> {
    let colon = spec_find_char(c, k, q, ':');
    if colon < q {
        if spec_prefix_ok(c, colon + 1, q) { Some((k, colon)) } else { None }
    } else if q > k && c[q - 1] == '*' {
        Some((k, q - 1))
    } else {
        Some((k, q))
    }
}

/// Variable discovery state: names found and mentions counted.
pub type Discovery = (Set<Seq<char>>, nat);

/// Reading the varspecs of an expression from char `k` up to its `}` at `e`:
/// each is checked and counted in turn.
pub open spec fn spec_varspecs(c: Seq<char>, k: int, e: int, d: Discovery, l: Limits) -> Result<Discovery, UriTemplateError>
    decreases e - k,
{
    if k < 0 || k > e || e > c.len() {
        Ok(d)
    } else {
        let q = spec_find_char(c, k, e, ',');
        match spec_varspec_name(c, k, q) {
            None => Err(spec_invalid(c, k)),
            Some((a, b)) => {
                let name = c.subrange(a, b);
                if !spec_valid_name(name) {
                    Err(spec_invalid(c, k))
                } else if d.1 + 1 > l.max_total_values {
                    Err(UriTemplateError::LimitExceeded { limit: LimitKind::TotalValues, maximum: l.max_total_values })
                } else if !d.0.contains(name) && d.0.len() >= l.max_collection_entries {
                    Err(UriTemplateError::LimitExceeded { limit: LimitKind::CollectionEntries, maximum: l.max_collection_entries })
                } else if q < e {
                    proof {
                        lemma_find_char(c, k, e, ',');
                    }
                    spec_varspecs(c, q + 1, e, (d.0.insert(name), d.1 + 1), l)
                } else {
                    Ok((d.0.insert(name), d.1 + 1))
                }
            },
        }
    }
}

/// Scanning a template from char `i`: literals, percent escapes, and
/// brace-delimited expressions.
pub open spec fn spec_scan_template(c: Seq<char>, i: int, d: Discovery, l: Limits) -> Result<Discovery, UriTemplateError>
    decreases c.len() - i,
{
    if i < 0 || i >= c.len() {
        Ok(d)
    } else if c[i] == '{' {
        let e = spec_find_char(c, i + 1, c.len() as int, '}');
        if e >= c.len() {
            Err(spec_invalid(c, i))
        } else {
            let k = if i + 1 < e && spec_operator(c[i + 1]) { i + 2 } else { i + 1 };
            match spec_varspecs(c, k, e, d, l) {
                Ok(d2) => {
                    proof {
                        lemma_find_char(c, i + 1, c.len() as int, '}');
                    }
                    spec_scan_template(c, e + 1, d2, l)
                },
                Err(x) => Err(x),
            }
        }
    } else if c[i] == '%' {
        if i + 2 < c.len() && spec_hex_char(c[i + 1]) && spec_hex_char(c[i + 2]) {
            spec_scan_template(c, i + 3, d, l)
        } else {
            Err(spec_invalid(c, i))
        }
    } else if spec_literal(c[i]) {
        spec_scan_template(c, i + 1, d, l)
    } else {
        Err(spec_invalid(c, i))
    }
}

/// The variables of a template, or its first error.
pub open spec fn spec_variables(c: Seq<char>, l: Limits) -> Result<Set<Seq<char>>, UriTemplateError> {
    match spec_scan_template(c, 0, (Set::empty(), 0), l) {
        Ok(d) => Ok(d.0),
        Err(e) => Err(e),
    }
}

/// The index found is within range and holds `ch`, with no earlier `ch`.
pub proof fn lemma_find_char(c: Seq<char>, k: int, e: int, ch: char)
    requires
        0 <= k <= e <= c.len(),
    ensures
        k <= spec_find_char(c, k, e, ch) <= e,
        spec_find_char(c, k, e, ch) < e ==> c[spec_find_char(c, k, e, ch)] == ch,
        forall|j: int| k <= j < spec_find_char(c, k, e, ch) ==> c[j] != ch,
    decreases e - k,
{
    if k < e && c[k] != ch {
        lemma_find_char(c, k + 1, e, ch);
    }
}

} // verus!

verus! {

fn find_char(c: &Vec<char>, k: usize, e: usize, ch: char) -> (res: usize)
    requires
        k <= e <= c@.len(),
    ensures
        res == spec_find_char(c@, k as int, e as int, ch),
{
    let mut j = k;
    while j < e && c[j] != ch
        invariant
            k <= j <= e <= c@.len(),
            spec_find_char(c@, k as int, e as int, ch) == spec_find_char(c@, j as int, e as int, ch),
        decreases e - j,
    {
        j = j + 1;
    }
    j
}

fn hex_char(c: char) -> (res: bool)
    ensures
        res == spec_hex_char(c),
{
    ('0' <= c && c <= '9') || ('a' <= c && c <= 'f') || ('A' <= c && c <= 'F')
}

fn varchar(c: char) -> (res: bool)
    ensures
        res == spec_varchar(c),
{
    ('0' <= c && c <= '9') || ('a' <= c && c <= 'z') || ('A' <= c && c <= 'Z') || c == '_'
}

fn literal(c: char) -> (res: bool)
    ensures
        res == spec_literal(c),
{
    let n = c as u32;
    n == 0x21 || (0x23 <= n && n <= 0x24) || n == 0x26 || (0x28 <= n && n <= 0x3b) || n == 0x3d
        || (0x3f <= n && n <= 0x5b) || n == 0x5d || n == 0x5f || (0x61 <= n && n <= 0x7a) || n == 0x7e
        || (0xa0 <= n && n <= 0xd7ff) || (0xe000 <= n && n <= 0xfdcf) || (0xfdf0 <= n && n <= 0xffef)
        || (0xe1000 <= n && n <= 0xefffd)
        || (((0x10000 <= n && n <= 0xdfffd) || (0xf0000 <= n && n <= 0x10fffd)) && (n % 0x10000) <= 0xfffd)
}

fn operator(c: char) -> (res: bool)
    ensures
        res == spec_operator(c),
{
    c == '+' || c == '#' || c == '.' || c == '/' || c == ';' || c == '?' || c == '&'
}

fn prefix_ok(c: &Vec<char>, a: usize, b: usize) -> (res: bool)
    requires
        a <= b <= c@.len(),
    ensures
        res == spec_prefix_ok(c@, a as int, b as int),
{
    if b - a < 1 || b - a > 4 {
        return false;
    }
    if !('1' <= c[a] && c[a] <= '9') {
        return false;
    }
    let mut k = a;
    while k < b
        invariant
            a <= k <= b <= c@.len(),
            forall|j: int| a <= j < k ==> '0' <= #[trigger] c@[j] <= '9',
        decreases b - k,
    {
        if !('0' <= c[k] && c[k] <= '9') {
            return false;
        }
        k = k + 1;
    }
    true
}

fn valid_name(c: &Vec<char>, a: usize, b: usize) -> (res: bool)
    requires
        a <= b <= c@.len(),
    ensures
        res == spec_valid_name(c@.subrange(a as int, b as int)),
{
    let ghost n = c@.subrange(a as int, b as int);
    let mut i = a;
    let mut at_part_start = true;
    while i < b
        invariant
            a <= i <= b <= c@.len(),
            n == c@.subrange(a as int, b as int),
            spec_valid_name(n) == spec_name_scan(n, i - a, at_part_start),
        decreases b - i,
    {
        let ch = c[i];
        assert(n[i - a] == ch);
        if ch == '.' {
            if at_part_start {
                return false;
            }
            at_part_start = true;
            i = i + 1;
        } else if varchar(ch) {
            at_part_start = false;
            i = i + 1;
        } else if ch == '%' && b - i > 2 && hex_char(c[i + 1]) && hex_char(c[i + 2]) {
            assert(n[i - a + 1] == c@[i + 1]);
            assert(n[i - a + 2] == c@[i + 2]);
            at_part_start = false;
            i = i + 3;
        } else {
            proof {
                if ch == '%' && b - i > 2 {
                    assert(n[i - a + 1] == c@[i + 1]);
                    assert(n[i - a + 2] == c@[i + 2]);
                }
            }
            return false;
        }
    }
    !at_part_start
}

fn chars_string(c: &Vec<char>, a: usize, b: usize) -> (res: String)
    requires
        a <= b <= c@.len(),
    ensures
        res@ == c@.subrange(a as int, b as int),
{
    let mut s = String::new();
    let mut k = a;
    while k < b
        invariant
            a <= k <= b <= c@.len(),
            s@ == c@.subrange(a as int, k as int),
        decreases b - k,
    {
        push_char(&mut s, c[k]);
        assert(c@.subrange(a as int, k + 1) =~= c@.subrange(a as int, k as int).push(c@[k as int]));
        k = k + 1;
    }
    s
}

fn contains_name(names: &Vec<String>, name: &String) -> (res: bool)
    ensures
        res == spec_views(names@).contains(name@),
{
    let mut k: usize = 0;
    while k < names.len()
        invariant
            k <= names@.len(),
            forall|j: int| 0 <= j < k ==> spec_views(names@)[j] != name@,
        decreases names@.len() - k,
    {
        if crate::text::same_text(names[k].as_str(), name.as_str()) {
            assert(spec_views(names@)[k as int] == name@);
            return true;
        }
        k = k + 1;
    }
    false
}

fn offset_of(c: &Vec<char>, k: usize) -> (res: usize)
    requires
        k < c@.len(),
        spec_utf8(c@).len() <= usize::MAX,
    ensures
        res == spec_offset(c@, k as int),
{
    proof {
        lemma_utf8_take(c@, k as int);
        crate::text::lemma_utf8_prefix_bound(c@, k + 1);
        assert(c@.take(0) =~= Seq::<char>::empty());
        assert(spec_utf8(Seq::<char>::empty()) =~= Seq::<u8>::empty());
    }
    crate::text::advance_offset(c, 0, k, 0)
}

/// The names found so far, as a set.
pub open spec fn spec_name_set(names: Seq<String>) -> Set<Seq<char>> {
    spec_views(names).to_set()
}

fn varspecs(c: &Vec<char>, start: usize, e: usize, names: &mut Vec<String>, mentions: &mut usize, limits: &Limits)
    -> (res: Result<(), UriTemplateError>)
    requires
        start <= e < c@.len(),
        spec_utf8(c@).len() <= usize::MAX,
        spec_views(old(names)@).no_duplicates(),
    ensures
        spec_views(final(names)@).no_duplicates(),
        match spec_varspecs(c@, start as int, e as int, (spec_name_set(old(names)@), *old(mentions) as nat), *limits) {
            Ok(d) => res is Ok && spec_name_set(final(names)@) == d.0 && *final(mentions) == d.1,
            Err(x) => res == Err::<(), UriTemplateError>(x),
        },
{
    let mut k = start;
    loop
        invariant
            k <= e < c@.len(),
            spec_utf8(c@).len() <= usize::MAX,
            spec_views(names@).no_duplicates(),
            spec_varspecs(c@, k as int, e as int, (spec_name_set(names@), *mentions as nat), *limits)
                == spec_varspecs(c@, start as int, e as int, (spec_name_set(old(names)@), *old(mentions) as nat), *limits),
        decreases e - k,
    {
        let q = find_char(c, k, e, ',');
        proof {
            lemma_find_char(c@, k as int, e as int, ',');
        }
        let colon = find_char(c, k, q, ':');
        proof {
            lemma_find_char(c@, k as int, q as int, ':');
        }
        let (a, b) = if colon < q {
            if !prefix_ok(c, colon + 1, q) {
                return Err(UriTemplateError::InvalidUriTemplate { offset: offset_of(c, k) });
            }
            (k, colon)
        } else if q > k && c[q - 1] == '*' {
            (k, q - 1)
        } else {
            (k, q)
        };
        if !valid_name(c, a, b) {
            return Err(UriTemplateError::InvalidUriTemplate { offset: offset_of(c, k) });
        }
        if *mentions >= limits.max_total_values {
            return Err(UriTemplateError::LimitExceeded { limit: LimitKind::TotalValues, maximum: limits.max_total_values });
        }
        let name = chars_string(c, a, b);
        let present = contains_name(names, &name);
        proof {
            spec_views(names@).unique_seq_to_set();
        }
        if !present && names.len() >= limits.max_collection_entries {
            return Err(UriTemplateError::LimitExceeded { limit: LimitKind::CollectionEntries, maximum: limits.max_collection_entries });
        }
        let ghost before = names@;
        if !present {
            names.push(name);
            proof {
                assert(spec_views(names@) =~= spec_views(before).push(name@));
                Seq::lemma_to_set_insert_commutes(spec_views(before), name@);
                assert(spec_views(before).push(name@) =~= spec_views(before) + seq![name@]);
            }
        } else {
            proof {
                assert(spec_name_set(before).contains(name@));
                assert(spec_name_set(before).insert(name@) =~= spec_name_set(before));
            }
        }
        *mentions = *mentions + 1;
        if q >= e {
            return Ok(());
        }
        k = q + 1;
    }
}

/// The variable names of a template, in UTF-8 order without repeats, after
/// checking its RFC 6570 syntax. Each mention counts toward the value
/// ceiling and each distinct name toward the collection ceiling.
pub fn variables(template: &str, limits: &Limits) -> (res: Result<Vec<String>, UriTemplateError>)
    ensures
        match spec_variables(template@, *limits) {
            Ok(set) => res matches Ok(v) && spec_strings_sorted(v@) && spec_name_set(v@) == set,
            Err(e) => res == Err::<Vec<String>, UriTemplateError>(e),
        },
{
    let c = collect_chars(template);
    let total: usize = template.as_bytes().len();
    proof {
        assert(spec_utf8(c@) == template.spec_bytes());
        assert(spec_utf8(c@).len() == total);
    }
    let mut names: Vec<String> = Vec::new();
    let mut mentions: usize = 0;
    let mut i: usize = 0;
    proof {
        assert(spec_name_set(names@) =~= Set::<Seq<char>>::empty());
    }
    while i < c.len()
        invariant
            i <= c@.len(),
            c@ == template@,
            spec_utf8(c@).len() <= usize::MAX,
            spec_views(names@).no_duplicates(),
            spec_scan_template(c@, 0, (Set::empty(), 0), *limits)
                == spec_scan_template(c@, i as int, (spec_name_set(names@), mentions as nat), *limits),
        decreases c@.len() - i,
    {
        let ch = c[i];
        if ch == '{' {
            let e = find_char(&c, i + 1, c.len(), '}');
            proof {
                lemma_find_char(c@, i + 1, c@.len() as int, '}');
            }
            if e >= c.len() {
                return Err(UriTemplateError::InvalidUriTemplate { offset: offset_of(&c, i) });
            }
            let k = if i + 1 < e && operator(c[i + 1]) { i + 2 } else { i + 1 };
            varspecs(&c, k, e, &mut names, &mut mentions, limits)?;
            i = e + 1;
        } else if ch == '%' {
            if c.len() - i > 2 && hex_char(c[i + 1]) && hex_char(c[i + 2]) {
                i = i + 3;
            } else {
                return Err(UriTemplateError::InvalidUriTemplate { offset: offset_of(&c, i) });
            }
        } else if literal(ch) {
            i = i + 1;
        } else {
            return Err(UriTemplateError::InvalidUriTemplate { offset: offset_of(&c, i) });
        }
    }
    let sorted = sort_codes(names);
    proof {
        assert forall|x: Seq<char>| spec_views(sorted@).to_set().contains(x) <==> spec_views(names@).to_set().contains(x) by {
            assert(spec_views(sorted@).contains(x) <==> spec_views(names@).contains(x));
        }
        assert(spec_name_set(sorted@) =~= spec_name_set(names@));
    }
    Ok(sorted)
}

} // verus!

verus! {

/// Why a template expansion was refused before any expansion.
#[derive(Debug)]
pub enum ExpansionError {
    /// The limits, or the argument record, failed the codec.
    Codec(crate::cbor::error::Error),
    /// Invalid template syntax or a discovery ceiling.
    Template(UriTemplateError),
    /// The arguments are not exactly one text per template variable.
    ArgumentMismatch,
    /// The template or the expansion exceeded a configured ceiling.
    LimitExceeded {
        /// Exhausted resource.
        limit: LimitKind,
        /// Configured ceiling.
        maximum: usize,
    },
}

/// The ceiling, if any, that a text of `n` bytes exceeds: the text, document
/// and payload ceilings, checked in that order.
pub open spec fn spec_text_ceiling(n: int, l: Limits) -> Option<ExpansionError> {
    if n > l.max_text_bytes {
        Some(ExpansionError::LimitExceeded { limit: LimitKind::TextBytes, maximum: l.max_text_bytes })
    } else if n > l.max_document_bytes {
        Some(ExpansionError::LimitExceeded { limit: LimitKind::DocumentBytes, maximum: l.max_document_bytes })
    } else if n > l.max_total_payload_bytes {
        Some(ExpansionError::LimitExceeded { limit: LimitKind::TotalPayloadBytes, maximum: l.max_total_payload_bytes })
    } else {
        None
    }
}

/// Arguments that give exactly one text to each variable of `names`.
pub open spec fn spec_arguments_match(entries: Seq<(String, crate::cbor::value::Value)>, names: Set<Seq<char>>) -> bool {
    &&& entries.len() == names.len()
    &&& forall|i: int| 0 <= i < entries.len() ==> names.contains((#[trigger] entries[i]).0@)
        && entries[i].1 is Text
}

/// The ceiling, if any, that a text of `n` bytes exceeds.
pub fn text_ceiling(n: usize, limits: &Limits) -> (res: Option<ExpansionError>)
    ensures
        res == spec_text_ceiling(n as int, *limits),
{
    if n > limits.max_text_bytes {
        Some(ExpansionError::LimitExceeded { limit: LimitKind::TextBytes, maximum: limits.max_text_bytes })
    } else if n > limits.max_document_bytes {
        Some(ExpansionError::LimitExceeded { limit: LimitKind::DocumentBytes, maximum: limits.max_document_bytes })
    } else if n > limits.max_total_payload_bytes {
        Some(ExpansionError::LimitExceeded { limit: LimitKind::TotalPayloadBytes, maximum: limits.max_total_payload_bytes })
    } else {
        None
    }
}

/// Checks a template and its argument record before expansion: valid limits,
/// the template within the text, document and payload ceilings, the record
/// within the codec limits, the template's syntax, and exactly one text
/// argument per variable. Gives the arguments as name and text pairs, in
/// stored order.
pub fn check_expansion(template: &str, arguments: &crate::cbor::value::Value, limits: &Limits)
    -> (res: Result<Vec<(String, String)>, ExpansionError>)
    ensures
        !limits.spec_valid() ==> (res matches Err(ExpansionError::Codec(e))
            && e.kind == crate::cbor::error::ErrorKind::InvalidLimits),
        limits.spec_valid() ==> match spec_text_ceiling(spec_utf8(template@).len() as int, *limits) {
            Some(e) => res == Err::<Vec<(String, String)>, ExpansionError>(e),
            None => if !crate::cbor::encode::spec_fits(*arguments, *limits) {
                res matches Err(ExpansionError::Codec(_))
            } else {
                match spec_variables(template@, *limits) {
                    Err(e) => res == Err::<Vec<(String, String)>, ExpansionError>(ExpansionError::Template(e)),
                    Ok(names) => match *arguments {
                        crate::cbor::value::Value::Object(m) => if spec_arguments_match(m.entries@, names) {
                            res matches Ok(pairs) && pairs@.len() == m.entries@.len()
                                && forall|i: int| 0 <= i < pairs@.len() ==> (#[trigger] pairs@[i]).0@ == m.entries@[i].0@
                                    && (m.entries@[i].1 matches crate::cbor::value::Value::Text(t) && pairs@[i].1@ == t@)
                        } else {
                            res == Err::<Vec<(String, String)>, ExpansionError>(ExpansionError::ArgumentMismatch)
                        },
                        _ => res == Err::<Vec<(String, String)>, ExpansionError>(ExpansionError::ArgumentMismatch),
                    },
                }
            },
        },
{
    if let Err(e) = limits.validate() {
        return Err(ExpansionError::Codec(e));
    }
    if let Some(e) = text_ceiling(template.as_bytes().len(), limits) {
        return Err(e);
    }
    if let Err(e) = crate::cbor::encode::encode(arguments, limits) {
        return Err(ExpansionError::Codec(e));
    }
    let names = match variables(template, limits) {
        Ok(n) => n,
        Err(e) => return Err(ExpansionError::Template(e)),
    };
    let m = match arguments {
        crate::cbor::value::Value::Object(m) => m,
        _ => return Err(ExpansionError::ArgumentMismatch),
    };
    let ghost set = spec_name_set(names@);
    proof {
        let vs = spec_views(names@);
        assert forall|i: int, j: int| 0 <= i < vs.len() && 0 <= j < vs.len() && i != j implies vs[i] != vs[j] by {
            if i < j {
                crate::cbor::keys::lemma_lex_irreflexive(spec_utf8(names@[i]@));
            } else {
                crate::cbor::keys::lemma_lex_irreflexive(spec_utf8(names@[j]@));
            }
        }
        vs.unique_seq_to_set();
    }
    if m.entries.len() != names.len() {
        return Err(ExpansionError::ArgumentMismatch);
    }
    let mut pairs: Vec<(String, String)> = Vec::new();
    let mut i: usize = 0;
    while i < m.entries.len()
        invariant
            *arguments == crate::cbor::value::Value::Object(*m),
            set == spec_name_set(names@),
            limits.spec_valid(),
            spec_text_ceiling(spec_utf8(template@).len() as int, *limits) is None,
            crate::cbor::encode::spec_fits(*arguments, *limits),
            spec_variables(template@, *limits) == Ok::<Set<Seq<char>>, UriTemplateError>(set),
            m.entries@.len() == set.len(),
            set.len() == names@.len(),
            i <= m.entries@.len(),
            pairs@.len() == i,
            forall|k: int| 0 <= k < i ==> set.contains((#[trigger] m.entries@[k]).0@) && m.entries@[k].1 is Text,
            forall|k: int| 0 <= k < i ==> (#[trigger] pairs@[k]).0@ == m.entries@[k].0@
                && (m.entries@[k].1 matches crate::cbor::value::Value::Text(t) && pairs@[k].1@ == t@),
        decreases m.entries@.len() - i,
    {
        let key = m.entries[i].0.as_str();
        let mut found = false;
        let mut j: usize = 0;
        while j < names.len()
            invariant
                j <= names@.len(),
                found <==> exists|k: int| 0 <= k < j && names@[k]@ == key@,
            decreases names@.len() - j,
        {
            if same_text(names[j].as_str(), key) {
                found = true;
            }
            j = j + 1;
        }
        proof {
            let vs = spec_views(names@);
            if found {
                let k = choose|k: int| 0 <= k < names@.len() && names@[k]@ == key@;
                assert(vs[k] == key@);
                assert(vs.contains(key@));
            } else {
                assert forall|k: int| 0 <= k < vs.len() implies vs[k] != key@ by {
                    assert(vs[k] == names@[k]@);
                }
            }
        }
        if !found {
            return Err(ExpansionError::ArgumentMismatch);
        }
        let text = match &m.entries[i].1 {
            crate::cbor::value::Value::Text(t) => t.as_str(),
            _ => return Err(ExpansionError::ArgumentMismatch),
        };
        pairs.push((String::from_str(key), String::from_str(text)));
        i = i + 1;
    }
    Ok(pairs)
}

} // verus!

verus! {

/// The ASCII characters RFC 6570 allows as template literals: letters,
/// digits and `! # $ & ( ) * + , - . / : ; = ? @ [ ] _ ~`.
pub open spec fn spec_rfc_ascii_literal(c: char) -> bool {
    ('a' <= c <= 'z') || ('A' <= c <= 'Z') || ('0' <= c <= '9') || c == '!' || c == '#' || c == '$' || c == '&'
        || c == '(' || c == ')' || c == '*' || c == '+' || c == ',' || c == '-' || c == '.' || c == '/' || c == ':'
        || c == ';' || c == '=' || c == '?' || c == '@' || c == '[' || c == ']' || c == '_' || c == '~'
}

/// Scanning literal characters finds nothing and refuses nothing.
proof fn lemma_scan_literals(c: Seq<char>, i: int, d: Discovery, l: Limits)
    requires
        0 <= i,
        forall|k: int| 0 <= k < c.len() ==> spec_rfc_ascii_literal(#[trigger] c[k]),
    ensures
        spec_scan_template(c, i, d, l) == Ok::<Discovery, UriTemplateError>(d),
    decreases c.len() - i,
{
    if i < c.len() {
        assert(spec_rfc_ascii_literal(c[i]));
        assert(spec_literal(c[i]));
        lemma_scan_literals(c, i + 1, d, l);
    }
}

/// A template made only of RFC 6570 ASCII literal characters has no
/// variables and no error.
pub proof fn lemma_literal_template(c: Seq<char>, l: Limits)
    requires
        forall|k: int| 0 <= k < c.len() ==> spec_rfc_ascii_literal(#[trigger] c[k]),
    ensures
        spec_variables(c, l) == Ok::<Set<Seq<char>>, UriTemplateError>(Set::empty()),
{
    lemma_scan_literals(c, 0, (Set::empty(), 0), l);
}

} // verus!

verus! {

/// A hex digit character, either case.
pub open spec fn spec_hex_digit_char(v: int, upper: bool) -> char {
    if v < 10 {
        ((0x30 + v) as u8) as char
    } else if upper {
        ((0x41 + v - 10) as u8) as char
    } else {
        ((0x61 + v - 10) as u8) as char
    }
}

/// A percent escape with hex digits in either case is passed over like a
/// literal: scanning from it is scanning from just after it.
pub proof fn lemma_percent_escape_passes(c: Seq<char>, i: int, d: Discovery, l: Limits, hi: int, lo: int,
    hi_upper: bool, lo_upper: bool)
    requires
        0 <= i,
        i + 2 < c.len(),
        0 <= hi < 16,
        0 <= lo < 16,
        c[i] == '%',
        c[i + 1] == spec_hex_digit_char(hi, hi_upper),
        c[i + 2] == spec_hex_digit_char(lo, lo_upper),
    ensures
        spec_scan_template(c, i, d, l) == spec_scan_template(c, i + 3, d, l),
{
    assert(spec_hex_char(c[i + 1]));
    assert(spec_hex_char(c[i + 2]));
}

} // verus!

//! The JSON number grammar on bytes, and the safe-integer check on its
//! decimal spelling; converting a token to binary64 happens elsewhere.

use vstd::prelude::*;

use crate::cbor::error::LimitKind;

verus! {

/// JSON/JCS profile failure; input contents are never retained.
#[derive(Debug)]
#[non_exhaustive]
pub enum JsonError {
    /// Invalid codec limit configuration.
    Codec(crate::cbor::error::Error),
    /// Invalid UTF-8 at the indicated byte.
    InvalidUtf8 {
        /// Zero-based byte offset.
        offset: usize,
    },
    /// Malformed JSON syntax at the indicated byte.
    Syntax {
        /// Zero-based byte offset.
        offset: usize,
    },
    /// Repeated decoded object key.
    DuplicateKey {
        /// Start of the repeated key.
        offset: usize,
    },
    /// Number violates the safe-integer/finite-binary64 profile.
    UnsafeNumber,
    /// A native byte string cannot be represented as JSON.
    UnsupportedValue,
    /// Input is valid JSON but not exact JCS bytes.
    NonCanonical,
    /// A data or output resource ceiling was exceeded.
    LimitExceeded {
        /// Exhausted resource.
        limit: LimitKind,
        /// Configured ceiling.
        maximum: usize,
    },
    /// A fallible storage reservation failed.
    AllocationFailed,
    /// String serialization failed independently of a tracked output limit.
    Serialization,
}

/// Whether `b` is an ASCII digit.
pub open spec fn spec_is_digit(b: u8) -> bool {
    0x30 <= b <= 0x39
}

/// The first index at or after `i` that does not hold a digit.
pub open spec fn spec_digits_end(b: Seq<u8>, i: int) -> int
    decreases b.len() - i,
{
    if i < 0 || i >= b.len() || !spec_is_digit(b[i]) {
        i
    } else {
        spec_digits_end(b, i + 1)
    }
}

/// The largest signed 64-bit integer.
pub open spec fn spec_i64_max() -> int {
    0x7fff_ffff_ffff_ffff
}

/// The decimal value of the digits in `b[p..q]`, each step saturating at the
/// largest signed 64-bit integer.
pub open spec fn spec_saturated_digits(b: Seq<u8>, p: int, q: int) -> int
    decreases q - p,
{
    if q <= p {
        0
    } else {
        let before = spec_saturated_digits(b, p, q - 1);
        let times = if before * 10 > spec_i64_max() { spec_i64_max() } else { before * 10 };
        let d = b[q - 1] - 0x30;
        if times + d > spec_i64_max() { spec_i64_max() } else { times + d }
    }
}

/// Scanning a JSON number at `start`: an optional `-`, `0` or a nonzero digit
/// and more digits, an optional fraction with at least one digit, and an
/// optional exponent with an optional sign and at least one digit. Gives the
/// end of the mantissa, the end of the token and the exponent, saturated.
pub open spec fn spec_scan_number(b: Seq<u8>, start: int) -> Result<(int, int, int), JsonError> {
    let p0 = if start < b.len() && b[start] == 0x2d { start + 1 } else { start };
    if !(p0 < b.len() && spec_is_digit(b[p0])) {
        Err(JsonError::Syntax { offset: p0 as usize })
    } else {
        let p1 = if b[p0] == 0x30 { p0 + 1 } else { spec_digits_end(b, p0) };
        let frac = p1 < b.len() && b[p1] == 0x2e;
        let q = spec_digits_end(b, p1 + 1);
        if frac && q == p1 + 1 {
            Err(JsonError::Syntax { offset: q as usize })
        } else {
            let m = if frac { q } else { p1 };
            if m < b.len() && (b[m] == 0x65 || b[m] == 0x45) {
                let s = m + 1;
                let negative = s < b.len() && b[s] == 0x2d;
                let p3 = if s < b.len() && (b[s] == 0x2b || b[s] == 0x2d) { s + 1 } else { s };
                let e = spec_digits_end(b, p3);
                if e == p3 {
                    Err(JsonError::Syntax { offset: p3 as usize })
                } else {
                    let x = spec_saturated_digits(b, p3, e);
                    Ok((m, e, if negative { -x } else { x }))
                }
            } else {
                Ok((m, m, 0))
            }
        }
    }
}

proof fn lemma_digits_end(b: Seq<u8>, i: int)
    requires
        0 <= i <= b.len(),
    ensures
        i <= spec_digits_end(b, i) <= b.len(),
        forall|k: int| i <= k < spec_digits_end(b, i) ==> spec_is_digit(b[k]),
        spec_digits_end(b, i) < b.len() ==> !spec_is_digit(b[spec_digits_end(b, i)]),
    decreases b.len() - i,
{
    if i < b.len() && spec_is_digit(b[i]) {
        lemma_digits_end(b, i + 1);
    }
}

/// The end of the run of digits at `i`.
fn digits_end(b: &[u8], i: usize) -> (res: usize)
    requires
        i <= b@.len(),
    ensures
        res == spec_digits_end(b@, i as int),
{
    let mut k = i;
    proof { lemma_digits_end(b@, i as int); }
    while k < b.len() && 0x30 <= b[k] && b[k] <= 0x39
        invariant
            i <= k <= b@.len(),
            spec_digits_end(b@, k as int) == spec_digits_end(b@, i as int),
        decreases b@.len() - k,
    {
        k = k + 1;
    }
    k
}

/// The saturated decimal value of the digits in `b[p..q]`.
fn saturated_digits(b: &[u8], p: usize, q: usize) -> (res: i64)
    requires
        p <= q <= b@.len(),
        forall|k: int| p <= k < q ==> spec_is_digit(b@[k]),
    ensures
        res == spec_saturated_digits(b@, p as int, q as int),
        0 <= res,
{
    let mut x: i64 = 0;
    let mut k = p;
    while k < q
        invariant
            p <= k <= q <= b@.len(),
            forall|j: int| p <= j < q ==> spec_is_digit(b@[j]),
            x == spec_saturated_digits(b@, p as int, k as int),
            0 <= x,
        decreases q - k,
    {
        let times: i64 = if x > 0x7fff_ffff_ffff_ffff / 10 { 0x7fff_ffff_ffff_ffff } else { x * 10 };
        let d: i64 = (b[k] - 0x30) as i64;
        x = if times > 0x7fff_ffff_ffff_ffff - d { 0x7fff_ffff_ffff_ffff } else { times + d };
        k = k + 1;
    }
    x
}

/// Scans a JSON number token at `start`: the end of its mantissa, the end of
/// the token and its exponent, saturated at the signed 64-bit range.
pub fn scan_number(b: &[u8], start: usize) -> (res: Result<(usize, usize, i64), JsonError>)
    requires
        start <= b@.len(),
    ensures
        match spec_scan_number(b@, start as int) {
            Ok((m, e, x)) => res matches Ok((rm, re, rx)) && rm == m && re == e && rx == x,
            Err(err) => res == Err::<(usize, usize, i64), JsonError>(err),
        },
{
    let p0 = if start < b.len() && b[start] == 0x2d { start + 1 } else { start };
    if !(p0 < b.len() && 0x30 <= b[p0] && b[p0] <= 0x39) {
        return Err(JsonError::Syntax { offset: p0 });
    }
    let p1 = if b[p0] == 0x30 { p0 + 1 } else { digits_end(b, p0) };
    proof { lemma_digits_end(b@, p0 as int); }
    let frac = p1 < b.len() && b[p1] == 0x2e;
    let m = if frac {
        let q = digits_end(b, p1 + 1);
        if q == p1 + 1 {
            return Err(JsonError::Syntax { offset: q });
        }
        q
    } else {
        proof {
            if p1 + 1 <= b@.len() {
                lemma_digits_end(b@, p1 + 1);
            }
        }
        p1
    };
    if m < b.len() && (b[m] == 0x65 || b[m] == 0x45) {
        let s = m + 1;
        let negative = s < b.len() && b[s] == 0x2d;
        let p3 = if s < b.len() && (b[s] == 0x2b || b[s] == 0x2d) { s + 1 } else { s };
        let e = digits_end(b, p3);
        proof { lemma_digits_end(b@, p3 as int); }
        if e == p3 {
            return Err(JsonError::Syntax { offset: p3 });
        }
        let x = saturated_digits(b, p3, e);
        Ok((m, e, if negative { -x } else { x }))
    } else {
        Ok((m, m, 0))
    }
}

} // verus!

verus! {

/// The digits of `m`, in order.
pub open spec fn spec_only_digits(m: Seq<u8>) -> Seq<u8>
    decreases m.len(),
{
    if m.len() == 0 {
        Seq::empty()
    } else if spec_is_digit(m.last()) {
        spec_only_digits(m.drop_last()).push(m.last())
    } else {
        spec_only_digits(m.drop_last())
    }
}

/// The number of digits after the decimal point of a mantissa, if it has one.
#[verifier::opaque]
pub open spec fn spec_fraction_digits(m: Seq<u8>) -> int {
    if exists|p: int| 0 <= p < m.len() && m[p] == 0x2e {
        let p = choose|p: int| 0 <= p < m.len() && m[p] == 0x2e && forall|k: int| 0 <= k < p ==> m[k] != 0x2e;
        m.len() - p - 1
    } else {
        0
    }
}

/// `x` clipped to the signed 64-bit range.
pub open spec fn spec_clip(x: int) -> int {
    if x > spec_i64_max() { spec_i64_max() } else if x < -spec_i64_max() - 1 { -spec_i64_max() - 1 } else { x }
}

/// The decimal spelling of the largest safe integer, 2^53 - 1.
pub open spec fn spec_safe_digits() -> Seq<u8> {
    seq![0x39u8, 0x30, 0x30, 0x37, 0x31, 0x39, 0x39, 0x32, 0x35, 0x34, 0x37, 0x34, 0x30, 0x39, 0x39, 0x31]
}

/// The significant digits, padded with zeros to 16 digits.
pub open spec fn spec_padded16(s: Seq<u8>) -> Seq<u8> {
    s + Seq::new((16 - s.len()) as nat, |k: int| 0x30u8)
}

/// The index of the first nonzero digit, when there is one.
#[verifier::opaque]
pub open spec fn spec_first_nonzero(ds: Seq<u8>) -> int {
    choose|f: int| 0 <= f < ds.len() && ds[f] != 0x30 && forall|k: int| 0 <= k < f ==> ds[k] == 0x30
}

/// The index of the last nonzero digit, when there is one.
#[verifier::opaque]
pub open spec fn spec_last_nonzero(ds: Seq<u8>) -> int {
    choose|g: int| 0 <= g < ds.len() && ds[g] != 0x30 && forall|k: int| g < k < ds.len() ==> ds[k] == 0x30
}

/// Whether every digit is zero.
#[verifier::opaque]
pub open spec fn spec_all_zero(ds: Seq<u8>) -> bool {
    forall|k: int| 0 <= k < ds.len() ==> ds[k] == 0x30
}

/// The width rule on significant digits `ds[first..=last]`, with `frac`
/// digits after the point and exponent `exponent`.
pub open spec fn spec_width_ok(ds: Seq<u8>, first: int, last: int, frac: int, exponent: int) -> bool {
    let significant = last - first + 1;
    let shift = spec_clip(spec_clip(exponent - frac) + (ds.len() - last - 1));
    if shift < 0 {
        true
    } else {
        let width = spec_clip(significant + shift);
        if width > 16 {
            false
        } else if width == 16 {
            !crate::cbor::value::spec_lex_lt(spec_safe_digits(), spec_padded16(ds.subrange(first, last + 1)))
        } else {
            true
        }
    }
}

/// Whether the decimal number with mantissa `m` and exponent `exponent` is
/// accepted by the safe-integer check: counted from the significant digits,
/// an integer's width is at most 16, and at 16 its significant digits padded
/// with zeros are at most `9007199254740991`. A number with a fractional
/// part, or with no nonzero digit, passes.
pub open spec fn spec_integral_token_ok(m: Seq<u8>, exponent: int) -> bool {
    let ds = spec_only_digits(m);
    spec_all_zero(ds) || spec_width_ok(ds, spec_first_nonzero(ds), spec_last_nonzero(ds), spec_fraction_digits(m), exponent)
}

/// The digits of a mantissa, in order.
fn only_digits(m: &[u8]) -> (res: Vec<u8>)
    ensures
        res@ == spec_only_digits(m@),
        res@.len() <= m@.len(),
{
    let mut ds: Vec<u8> = Vec::new();
    let mut i: usize = 0;
    proof { assert(m@.take(0) =~= Seq::<u8>::empty()); }
    while i < m.len()
        invariant
            i <= m@.len(),
            ds@ == spec_only_digits(m@.take(i as int)),
            ds@.len() <= i,
        decreases m@.len() - i,
    {
        proof {
            assert(m@.take(i + 1).drop_last() =~= m@.take(i as int));
            assert(m@.take(i + 1).last() == m@[i as int]);
        }
        if 0x30 <= m[i] && m[i] <= 0x39 {
            ds.push(m[i]);
        }
        i = i + 1;
    }
    proof { assert(m@.take(m@.len() as int) =~= m@); }
    ds
}

/// The number of digits after a mantissa's decimal point, if it has one.
fn fraction_digits(m: &[u8]) -> (res: usize)
    ensures
        res == spec_fraction_digits(m@),
        res <= m@.len(),
{
    let mut i: usize = 0;
    while i < m.len()
        invariant
            i <= m@.len(),
            forall|k: int| 0 <= k < i ==> m@[k] != 0x2e,
        decreases m@.len() - i,
    {
        if m[i] == 0x2e {
            proof {
                reveal(spec_fraction_digits);
                let q = choose|q: int| 0 <= q < m@.len() && m@[q] == 0x2e && forall|k: int| 0 <= k < q ==> m@[k] != 0x2e;
                assert(0 <= i < m@.len() && m@[i as int] == 0x2e && forall|k: int| 0 <= k < i ==> m@[k] != 0x2e);
                if q < i { assert(m@[q] != 0x2e); }
                if i < q { assert(m@[i as int] != 0x2e); }
            }
            return m.len() - i - 1;
        }
        i = i + 1;
    }
    proof { reveal(spec_fraction_digits); }
    0
}

/// The first and last nonzero digits, when there is one.
fn nonzero_bounds(ds: &Vec<u8>) -> (res: Option<(usize, usize)>)
    ensures
        res is None <==> spec_all_zero(ds@),
        res matches Some((f, g)) ==> f == spec_first_nonzero(ds@) && g == spec_last_nonzero(ds@)
            && f <= g < ds@.len(),
{
    proof {
        reveal(spec_all_zero);
        reveal(spec_first_nonzero);
        reveal(spec_last_nonzero);
    }
    let mut first: Option<usize> = None;
    let mut last: usize = 0;
    let mut k: usize = 0;
    while k < ds.len()
        invariant
            k <= ds@.len(),
            match first {
                Some(f) => f <= last < k && ds@[f as int] != 0x30 && (forall|j: int| 0 <= j < f ==> ds@[j] == 0x30)
                    && ds@[last as int] != 0x30 && (forall|j: int| last < j < k ==> ds@[j] == 0x30),
                None => forall|j: int| 0 <= j < k ==> ds@[j] == 0x30,
            },
        decreases ds@.len() - k,
    {
        if ds[k] != 0x30 {
            if first.is_none() {
                first = Some(k);
            }
            last = k;
        }
        k = k + 1;
    }
    match first {
        None => None,
        Some(f) => {
            proof {
                let d = ds@;
                let cf = spec_first_nonzero(d);
                let cl = spec_last_nonzero(d);
                assert(0 <= f < d.len() && d[f as int] != 0x30 && forall|j: int| 0 <= j < f ==> d[j] == 0x30);
                assert(0 <= last < d.len() && d[last as int] != 0x30 && forall|j: int| last < j < d.len() ==> d[j] == 0x30);
                if cf < f { assert(d[cf] == 0x30); }
                if f < cf { assert(d[f as int] == 0x30); }
                if cl < last { assert(d[last as int] == 0x30); }
                if last < cl { assert(d[cl] == 0x30); }
            }
            Some((f, last))
        },
    }
}

/// `x` minus `y`, clipped to the signed 64-bit range.
fn clipped_sub(x: i64, y: i64) -> (res: i64)
    ensures
        res == spec_clip(x - y),
{
    if y > 0 && x < i64::MIN + y {
        i64::MIN
    } else if y < 0 && x > i64::MAX + y {
        i64::MAX
    } else {
        x - y
    }
}

/// `x` plus `y`, clipped to the signed 64-bit range.
fn clipped_add(x: i64, y: i64) -> (res: i64)
    ensures
        res == spec_clip(x + y),
{
    if y > 0 && x > i64::MAX - y {
        i64::MAX
    } else if y < 0 && x < i64::MIN - y {
        i64::MIN
    } else {
        x + y
    }
}

/// Whether the significant digits `ds[f..=last]`, padded with zeros to 16
/// digits, are above `9007199254740991`.
fn exceeds_safe(ds: &Vec<u8>, f: usize, last: usize) -> (res: bool)
    requires
        f <= last < ds@.len(),
        last - f + 1 <= 16,
    ensures
        res == crate::cbor::value::spec_lex_lt(spec_safe_digits(), spec_padded16(ds@.subrange(f as int, last + 1))),
{
    let mut decimal: Vec<u8> = Vec::new();
    let mut j: usize = f;
    while j <= last
        invariant
            f <= j <= last + 1,
            last < ds.len(),
            decimal@ == ds@.subrange(f as int, j as int),
        decreases last + 1 - j,
    {
        decimal.push(ds[j]);
        proof { assert(ds@.subrange(f as int, j + 1) =~= ds@.subrange(f as int, j as int).push(ds@[j as int])); }
        j = j + 1;
    }
    let ghost sig = decimal@;
    while decimal.len() < 16
        invariant
            sig.len() <= 16,
            sig.len() <= decimal@.len() <= 16,
            decimal@ == sig + Seq::new((decimal@.len() - sig.len()) as nat, |k: int| 0x30u8),
        decreases 16 - decimal@.len(),
    {
        decimal.push(0x30);
        proof {
            assert(decimal@ =~= sig + Seq::new((decimal@.len() - sig.len()) as nat, |k: int| 0x30u8));
        }
    }
    let safe: [u8; 16] = [0x39, 0x30, 0x30, 0x37, 0x31, 0x39, 0x39, 0x32, 0x35, 0x34, 0x37, 0x34, 0x30, 0x39, 0x39, 0x31];
    proof {
        assert(safe@ =~= spec_safe_digits());
        assert(decimal@ =~= spec_padded16(ds@.subrange(f as int, last + 1)));
    }
    crate::types::reader::bytes_lt(&safe, decimal.as_slice())
}

/// Refuses a number token whose value is an integer beyond 2^53 - 1, judged
/// from its decimal spelling before any conversion.
#[verifier::rlimit(40)]
pub fn check_integral_token(mantissa: &[u8], exponent: i64) -> (res: Result<(), JsonError>)
    requires
        mantissa@.len() <= 0x7fff_ffff_ffff_ffff,
    ensures
        res is Ok <==> spec_integral_token_ok(mantissa@, exponent as int),
        res matches Err(e) ==> e == JsonError::UnsafeNumber,
{
    let ds = only_digits(mantissa);
    let fraction = fraction_digits(mantissa);
    let (f, last) = match nonzero_bounds(&ds) {
        None => return Ok(()),
        Some(b) => b,
    };
    let digits = ds.len() as i64;
    let significant = (last - f + 1) as i64;
    let lowered = clipped_sub(exponent, fraction as i64);
    let shift = clipped_add(lowered, digits - (last as i64) - 1);
    let ghost spec_ok = spec_integral_token_ok(mantissa@, exponent as int);
    proof {
        assert(!spec_all_zero(ds@));
        assert(digits == ds@.len());
        assert(significant == last - f + 1);
        assert(spec_ok == spec_width_ok(ds@, f as int, last as int, fraction as int, exponent as int));
    }
    if shift < 0 {
        return Ok(());
    }
    let width = clipped_add(significant, shift);
    if width > 16 {
        return Err(JsonError::UnsafeNumber);
    }
    if width < 16 {
        return Ok(());
    }
    if exceeds_safe(&ds, f, last) {
        return Err(JsonError::UnsafeNumber);
    }
    Ok(())
}

} // verus!

verus! {

/// The value of a hex digit, if `b` is one.
pub open spec fn spec_hex_value(b: u8) -> Option<int> {
    if 0x30 <= b <= 0x39 {
        Some(b - 0x30)
    } else if 0x61 <= b <= 0x66 {
        Some(b - 0x61 + 10)
    } else if 0x41 <= b <= 0x46 {
        Some(b - 0x41 + 10)
    } else {
        None
    }
}

/// Reading four hex digits at `pos`: their value, or a syntax failure at the
/// first position that is not a hex digit.
pub open spec fn spec_hex4(b: Seq<u8>, pos: int) -> Result<int, JsonError> {
    if !(pos < b.len() && spec_hex_value(b[pos]) is Some) {
        Err(JsonError::Syntax { offset: pos as usize })
    } else if !(pos + 1 < b.len() && spec_hex_value(b[pos + 1]) is Some) {
        Err(JsonError::Syntax { offset: (pos + 1) as usize })
    } else if !(pos + 2 < b.len() && spec_hex_value(b[pos + 2]) is Some) {
        Err(JsonError::Syntax { offset: (pos + 2) as usize })
    } else if !(pos + 3 < b.len() && spec_hex_value(b[pos + 3]) is Some) {
        Err(JsonError::Syntax { offset: (pos + 3) as usize })
    } else {
        Ok(spec_hex_value(b[pos]).unwrap() * 4096 + spec_hex_value(b[pos + 1]).unwrap() * 256
            + spec_hex_value(b[pos + 2]).unwrap() * 16 + spec_hex_value(b[pos + 3]).unwrap())
    }
}

/// The UTF-8 length of a scalar value.
pub open spec fn spec_utf8_len(point: int) -> int {
    if point < 0x80 { 1 } else if point < 0x800 { 2 } else if point < 0x10000 { 3 } else { 4 }
}

/// Reading a `\u` escape whose four digits start at `pos`: the position
/// after it and the UTF-8 length of the character it stands for. A high
/// surrogate must be followed by `\u` and a low surrogate; a lone low
/// surrogate is refused after its digits.
pub open spec fn spec_unicode_escape(b: Seq<u8>, pos: int) -> Result<(int, int), JsonError> {
    match spec_hex4(b, pos) {
        Err(e) => Err(e),
        Ok(high) => {
            let p = pos + 4;
            if 0xd800 <= high <= 0xdbff {
                if !(p + 1 < b.len() && b[p] == 0x5c && b[p + 1] == 0x75) {
                    Err(JsonError::Syntax { offset: p as usize })
                } else {
                    match spec_hex4(b, p + 2) {
                        Err(e) => Err(e),
                        Ok(low) => if !(0xdc00 <= low <= 0xdfff) {
                            Err(JsonError::Syntax { offset: (p + 6) as usize })
                        } else {
                            Ok((p + 6, 4))
                        },
                    }
                }
            } else if 0xdc00 <= high <= 0xdfff {
                Err(JsonError::Syntax { offset: p as usize })
            } else {
                Ok((p, spec_utf8_len(high)))
            }
        }
    }
}

/// Scanning the rest of a JSON string token from `pos`, with `len` decoded
/// bytes so far and at most `max` allowed: the position after the closing
/// quote, or the first failure.
pub open spec fn spec_scan_string_from(b: Seq<u8>, pos: int, len: int, max: int) -> Result<int, JsonError>
    decreases b.len() - pos,
{
    if pos < 0 || pos >= b.len() {
        Err(JsonError::Syntax { offset: pos as usize })
    } else if b[pos] == 0x22 {
        Ok(pos + 1)
    } else if b[pos] < 32 {
        Err(JsonError::Syntax { offset: pos as usize })
    } else {
        let step: Result<(int, int), JsonError> = if b[pos] == 0x5c {
            let q = pos + 1;
            if q >= b.len() {
                Err(JsonError::Syntax { offset: q as usize })
            } else if b[q] == 0x22 || b[q] == 0x5c || b[q] == 0x2f || b[q] == 0x62 || b[q] == 0x66 || b[q] == 0x6e
                || b[q] == 0x72 || b[q] == 0x74 {
                Ok((q + 1, 1))
            } else if b[q] == 0x75 {
                spec_unicode_escape(b, q + 1)
            } else {
                Err(JsonError::Syntax { offset: q as usize })
            }
        } else {
            Ok((pos + 1, 1))
        };
        match step {
            Err(e) => Err(e),
            Ok((next, count)) => if len + count > max {
                Err(JsonError::LimitExceeded { limit: LimitKind::DocumentBytes, maximum: max as usize })
            } else if next <= pos {
                Err(JsonError::Syntax { offset: pos as usize })
            } else {
                spec_scan_string_from(b, next, len + count, max)
            },
        }
    }
}

/// Scanning a JSON string token whose opening quote is at `start`.
pub open spec fn spec_scan_string(b: Seq<u8>, start: int, max: int) -> Result<int, JsonError> {
    if !(start < b.len() && b[start] == 0x22) {
        Err(JsonError::Syntax { offset: start as usize })
    } else {
        spec_scan_string_from(b, start + 1, 0, max)
    }
}

/// Reads one hex digit.
fn hex_value(b: u8) -> (res: Option<u32>)
    ensures
        match spec_hex_value(b) {
            Some(v) => res == Some(v as u32),
            None => res is None,
        },
{
    if 0x30 <= b && b <= 0x39 {
        Some((b - 0x30) as u32)
    } else if 0x61 <= b && b <= 0x66 {
        Some((b - 0x61 + 10) as u32)
    } else if 0x41 <= b && b <= 0x46 {
        Some((b - 0x41 + 10) as u32)
    } else {
        None
    }
}

/// Whether a byte is a hex digit.
pub fn is_hex_digit(b: u8) -> (res: bool)
    ensures
        res == spec_hex_value(b) is Some,
{
    hex_value(b).is_some()
}

/// Reads the hex digit at `p`.
fn digit_at(b: &[u8], p: usize) -> (res: Result<u32, JsonError>)
    ensures
        if (p as int) < b@.len() && spec_hex_value(b@[p as int]) is Some {
            res == Ok::<u32, JsonError>(spec_hex_value(b@[p as int]).unwrap() as u32) && spec_hex_value(b@[p as int]).unwrap() < 16
        } else {
            res == Err::<u32, JsonError>(JsonError::Syntax { offset: p })
        },
{
    if p >= b.len() {
        return Err(JsonError::Syntax { offset: p });
    }
    match hex_value(b[p]) {
        Some(d) => Ok(d),
        None => Err(JsonError::Syntax { offset: p }),
    }
}

/// Reads four hex digits at `pos`.
fn hex4(b: &[u8], pos: usize) -> (res: Result<u32, JsonError>)
    requires
        pos + 4 <= usize::MAX,
    ensures
        match spec_hex4(b@, pos as int) {
            Ok(v) => res == Ok::<u32, JsonError>(v as u32) && v < 0x10000,
            Err(e) => res == Err::<u32, JsonError>(e),
        },
{
    let d0 = digit_at(b, pos)?;
    let d1 = digit_at(b, pos + 1)?;
    let d2 = digit_at(b, pos + 2)?;
    let d3 = digit_at(b, pos + 3)?;
    Ok(d0 * 4096 + d1 * 256 + d2 * 16 + d3)
}

/// Reads a `\u` escape whose digits start at `pos`.
fn unicode_escape(b: &[u8], pos: usize) -> (res: Result<(usize, usize), JsonError>)
    requires
        pos + 12 <= usize::MAX,
    ensures
        match spec_unicode_escape(b@, pos as int) {
            Ok((n, c)) => res == Ok::<(usize, usize), JsonError>((n as usize, c as usize)),
            Err(e) => res == Err::<(usize, usize), JsonError>(e),
        },
{
    let high = hex4(b, pos)?;
    let p = pos + 4;
    if 0xd800 <= high && high <= 0xdbff {
        if !(p + 1 < b.len() && b[p] == 0x5c && b[p + 1] == 0x75) {
            return Err(JsonError::Syntax { offset: p });
        }
        let low = hex4(b, p + 2)?;
        if !(0xdc00 <= low && low <= 0xdfff) {
            return Err(JsonError::Syntax { offset: p + 6 });
        }
        Ok((p + 6, 4))
    } else if 0xdc00 <= high && high <= 0xdfff {
        Err(JsonError::Syntax { offset: p })
    } else {
        let n: usize = if high < 0x80 { 1 } else if high < 0x800 { 2 } else { 3 };
        Ok((p, n))
    }
}

/// Scans a JSON string token whose opening quote is at `start`, counting
/// its decoded bytes against `max`: the position after the closing quote.
pub fn scan_string(b: &[u8], start: usize, max: usize) -> (res: Result<usize, JsonError>)
    requires
        b@.len() + 16 <= usize::MAX,
    ensures
        match spec_scan_string(b@, start as int, max as int) {
            Ok(e) => res matches Ok(r) && r as int == e,
            Err(x) => res == Err::<usize, JsonError>(x),
        },
        res matches Ok(e) ==> start < e <= b@.len(),
{
    if !(start < b.len() && b[start] == 0x22) {
        return Err(JsonError::Syntax { offset: start });
    }
    let mut pos: usize = start + 1;
    let mut len: usize = 0;
    while pos < b.len()
        invariant
            b@.len() + 16 <= usize::MAX,
            start < b@.len(),
            b@[start as int] == 0x22,
            start + 1 <= pos <= b@.len(),
            len <= max,
            spec_scan_string(b@, start as int, max as int) == spec_scan_string_from(b@, pos as int, len as int, max as int),
        decreases b@.len() - pos,
    {
        let byte = b[pos];
        if byte == 0x22 {
            return Ok(pos + 1);
        }
        if byte < 32 {
            return Err(JsonError::Syntax { offset: pos });
        }
        let (next, count) = if byte == 0x5c {
            let q = pos + 1;
            if q >= b.len() {
                return Err(JsonError::Syntax { offset: q });
            }
            let e = b[q];
            if e == 0x22 || e == 0x5c || e == 0x2f || e == 0x62 || e == 0x66 || e == 0x6e || e == 0x72 || e == 0x74 {
                (q + 1, 1usize)
            } else if e == 0x75 {
                unicode_escape(b, q + 1)?
            } else {
                return Err(JsonError::Syntax { offset: q });
            }
        } else {
            (pos + 1, 1usize)
        };
        if count > max - len {
            return Err(JsonError::LimitExceeded { limit: LimitKind::DocumentBytes, maximum: max });
        }
        if next <= pos {
            return Err(JsonError::Syntax { offset: pos });
        }
        len = len + count;
        pos = next;
        if pos > b.len() {
            return Err(JsonError::Syntax { offset: pos });
        }
    }
    Err(JsonError::Syntax { offset: pos })
}

/// The text a complete JSON string token stands for, as `serde_json`
/// decodes it; nothing where it refuses the token.
pub uninterp spec fn spec_json_token_text(token: Seq<u8>) -> Option<Seq<char>>;

/// Calls `serde_json::from_slice::<String>` on a string token and keeps the
/// decoded text, or nothing where serde_json refuses the token.
#[verifier::external_body]
fn decode_string_token(token: &[u8]) -> (res: Option<String>)
    ensures
        match spec_json_token_text(token@) {
            Some(t) => res matches Some(s) && s@ == t,
            None => res is None,
        },
{
    serde_json::from_slice::<String>(token).ok()
}

/// Reads a JSON string token whose opening quote is at `start`: the token is
/// scanned, its decoded bytes counted against `max`, then decoded. The result
/// is the text and the position after the closing quote.
pub fn read_string(b: &[u8], start: usize, max: usize) -> (res: Result<(String, usize), JsonError>)
    requires
        b@.len() + 16 <= usize::MAX,
    ensures
        match spec_scan_string(b@, start as int, max as int) {
            Err(x) => res == Err::<(String, usize), JsonError>(x),
            Ok(end) => match spec_json_token_text(b@.subrange(start as int, end)) {
                Some(t) => res matches Ok((s, e)) && s@ == t && e == end,
                None => res == Err::<(String, usize), JsonError>(JsonError::Syntax { offset: start }),
            },
        },
{
    let end = scan_string(b, start, max)?;
    proof {
        assert(start < b@.len());
    }
    let mut token: Vec<u8> = Vec::new();
    let mut i: usize = start;
    while i < end
        invariant
            start <= i <= end <= b@.len(),
            token@ == b@.subrange(start as int, i as int),
        decreases end - i,
    {
        token.push(b[i]);
        proof { assert(token@ =~= b@.subrange(start as int, i + 1)); }
        i = i + 1;
    }
    match decode_string_token(token.as_slice()) {
        Some(s) => Ok((s, end)),
        None => Err(JsonError::Syntax { offset: start }),
    }
}

} // verus!

verus! {

/// Ten to the power `n`.
pub open spec fn spec_pow10(n: nat) -> int
    decreases n,
{
    if n == 0 { 1 } else { 10 * spec_pow10((n - 1) as nat) }
}

/// The decimal value of ASCII digits, read from the most significant: the
/// first digit times ten to the number of digits after it, plus the rest.
pub open spec fn spec_decimal(s: Seq<u8>) -> int
    decreases s.len(),
{
    if s.len() == 0 {
        0
    } else {
        (s[0] - 0x30) * spec_pow10((s.len() - 1) as nat) + spec_decimal(s.drop_first())
    }
}

proof fn lemma_pow10_positive(n: nat)
    ensures
        spec_pow10(n) >= 1,
    decreases n,
{
    if n > 0 {
        lemma_pow10_positive((n - 1) as nat);
    }
}

/// Appending a digit multiplies the value by ten and adds the digit; digits
/// have a nonnegative value.
proof fn lemma_decimal_push(s: Seq<u8>, d: u8)
    requires
        forall|i: int| 0 <= i < s.len() ==> spec_is_digit(#[trigger] s[i]),
        spec_is_digit(d),
    ensures
        spec_decimal(s.push(d)) == spec_decimal(s) * 10 + (d - 0x30),
        spec_decimal(s) >= 0,
    decreases s.len(),
{
    if s.len() == 0 {
        assert(s.push(d).drop_first() =~= Seq::<u8>::empty());
        assert(s.push(d)[0] == d);
        assert(spec_pow10(0) == 1);
        assert(spec_decimal(s.push(d)) == (d - 0x30) * 1 + spec_decimal(Seq::<u8>::empty()));
    } else {
        let t = s.drop_first();
        assert forall|i: int| 0 <= i < t.len() implies spec_is_digit(#[trigger] t[i]) by {
            assert(t[i] == s[i + 1]);
        }
        lemma_decimal_push(t, d);
        assert(s.push(d).drop_first() =~= t.push(d));
        assert(s.push(d)[0] == s[0]);
        let a: int = s[0] - 0x30;
        let p = spec_pow10((s.len() - 1) as nat);
        lemma_pow10_positive((s.len() - 1) as nat);
        assert(spec_pow10(s.len() as nat) == 10 * p);
        assert(a * (10 * p) == (a * p) * 10) by (nonlinear_arith);
        assert(spec_decimal(s.push(d)) == a * spec_pow10(s.len() as nat) + spec_decimal(t.push(d)));
        assert(spec_decimal(s) == a * p + spec_decimal(t));
        assert(a * p >= 0) by (nonlinear_arith)
            requires
                a >= 0,
                p >= 1,
        ;
    }
}

/// While the value stays within `i64`, the saturating reading is the
/// decimal value.
proof fn lemma_saturated_is_decimal(b: Seq<u8>, p: int, q: int)
    requires
        0 <= p <= q <= b.len(),
        forall|k: int| p <= k < q ==> spec_is_digit(#[trigger] b[k]),
        spec_decimal(b.subrange(p, q)) <= spec_i64_max(),
    ensures
        spec_saturated_digits(b, p, q) == spec_decimal(b.subrange(p, q)),
        spec_decimal(b.subrange(p, q)) >= 0,
    decreases q - p,
{
    if q > p {
        let s = b.subrange(p, q - 1);
        assert forall|i: int| 0 <= i < s.len() implies spec_is_digit(#[trigger] s[i]) by {
            assert(s[i] == b[p + i]);
        }
        assert(spec_is_digit(b[q - 1]));
        lemma_decimal_push(s, b[q - 1]);
        assert(s.push(b[q - 1]) =~= b.subrange(p, q));
        lemma_saturated_is_decimal(b, p, q - 1);
    } else {
        assert(b.subrange(p, q) =~= Seq::<u8>::empty());
    }
}

/// A scanned number's exponent is the decimal value of its exponent digits,
/// negated after `-`, whenever that value fits in `i64`; a number without
/// an exponent has exponent zero.
pub proof fn lemma_scan_number_exponent(b: Seq<u8>, start: int, m: int, e: int, x: int)
    requires
        0 <= start <= b.len(),
        spec_scan_number(b, start) == Ok::<(int, int, int), JsonError>((m, e, x)),
    ensures
        e == m ==> x == 0,
        e > m ==> ({
            let s = m + 1;
            let negative = b[s] == 0x2d;
            let p3 = if b[s] == 0x2b || b[s] == 0x2d { s + 1 } else { s };
            let digits = b.subrange(p3, e);
            &&& (b[m] == 0x65 || b[m] == 0x45)
            &&& forall|k: int| 0 <= k < digits.len() ==> spec_is_digit(#[trigger] digits[k])
            &&& spec_decimal(digits) <= spec_i64_max() ==> x == (if negative { -spec_decimal(digits) } else { spec_decimal(digits) })
        }),
{
    let p0 = if start < b.len() && b[start] == 0x2d { start + 1 } else { start };
    let p1 = if b[p0] == 0x30 { p0 + 1 } else { spec_digits_end(b, p0) };
    lemma_digits_end(b, p0);
    if p1 + 1 <= b.len() {
        lemma_digits_end(b, p1 + 1);
    }
    let frac = p1 < b.len() && b[p1] == 0x2e;
    let mm = if frac { spec_digits_end(b, p1 + 1) } else { p1 };
    if mm < b.len() && (b[mm] == 0x65 || b[mm] == 0x45) {
        let s = mm + 1;
        let p3 = if s < b.len() && (b[s] == 0x2b || b[s] == 0x2d) { s + 1 } else { s };
        lemma_digits_end(b, p3);
        let ee = spec_digits_end(b, p3);
        assert(mm == m && ee == e);
        let digits = b.subrange(p3, e);
        assert forall|k: int| 0 <= k < digits.len() implies spec_is_digit(#[trigger] digits[k]) by {
            assert(digits[k] == b[p3 + k]);
        }
        if spec_decimal(digits) <= spec_i64_max() {
            lemma_saturated_is_decimal(b, p3, e);
        }
    }
}

} // verus!

verus! {

/// The hex digit spelling value `v` (below sixteen), in lower or upper case.
pub open spec fn spec_hex_digit_spelling(v: int, upper: bool) -> u8 {
    if v < 10 {
        (0x30 + v) as u8
    } else if upper {
        (0x41 + v - 10) as u8
    } else {
        (0x61 + v - 10) as u8
    }
}

/// Hex digits read case-insensitively: the spelling of a value below
/// sixteen, in either case, reads as that value; four such spellings read
/// as their big-endian number.
pub proof fn lemma_hex_digits_read(b: Seq<u8>, pos: int, v: Seq<int>, upper: Seq<bool>)
    requires
        0 <= pos,
        pos + 4 <= b.len(),
        v.len() == 4,
        upper.len() == 4,
        forall|k: int| 0 <= k < 4 ==> 0 <= #[trigger] v[k] < 16 && b[pos + k] == spec_hex_digit_spelling(v[k], upper[k]),
    ensures
        forall|k: int| 0 <= k < 4 ==> spec_hex_value(#[trigger] b[pos + k]) == Some(v[k]),
        spec_hex4(b, pos) == Ok::<int, JsonError>(v[0] * 4096 + v[1] * 256 + v[2] * 16 + v[3]),
{
    assert forall|k: int| 0 <= k < 4 implies spec_hex_value(#[trigger] b[pos + k]) == Some(v[k]) by {
        assert(0 <= v[k] < 16 && b[pos + k] == spec_hex_digit_spelling(v[k], upper[k]));
    }
    assert(spec_hex_value(b[pos]) == Some(v[0]));
    assert(spec_hex_value(b[pos + 1]) == Some(v[1]));
    assert(spec_hex_value(b[pos + 2]) == Some(v[2]));
    assert(spec_hex_value(b[pos + 3]) == Some(v[3]));
}

} // verus!

verus! {

/// A mantissa of digits (not starting with `0` unless alone), optionally
/// after `-` and optionally followed by `.` and one or more digits, that is
/// followed by neither a digit nor an exponent mark, scans to its end with
/// exponent zero.
pub proof fn lemma_scan_plain_number(b: Seq<u8>, start: int, k: int, t: int)
    requires
        0 <= start < k <= t <= b.len(),
        ({
            let d0 = if b[start] == 0x2d { start + 1 } else { start };
            &&& d0 < k
            &&& forall|j: int| d0 <= j < k ==> spec_is_digit(#[trigger] b[j])
            &&& (b[d0] == 0x30 ==> k == d0 + 1)
        }),
        k == t || (b[k] == 0x2e && k + 1 < t && forall|j: int| k < j < t ==> spec_is_digit(#[trigger] b[j])),
        t == b.len() || !(spec_is_digit(b[t]) || b[t] == 0x65 || b[t] == 0x45 || (k == t && b[t] == 0x2e)),
    ensures
        spec_scan_number(b, start) == Ok::<(int, int, int), JsonError>((t, t, 0)),
{
    let d0 = if b[start] == 0x2d { start + 1 } else { start };
    assert(spec_is_digit(b[d0]));
    lemma_digits_run(b, d0, k);
    if k < t {
        lemma_digits_run(b, k + 1, t);
    } else if k + 1 <= b.len() {
        lemma_digits_end(b, k + 1);
    }
}

/// A run of digits ending where digits end reaches exactly that end.
proof fn lemma_digits_run(b: Seq<u8>, i: int, k: int)
    requires
        0 <= i <= k <= b.len(),
        forall|j: int| i <= j < k ==> spec_is_digit(#[trigger] b[j]),
    ensures
        (k == b.len() || !spec_is_digit(b[k])) ==> spec_digits_end(b, i) == k,
        spec_digits_end(b, i) >= k,
    decreases k - i,
{
    if i < k {
        lemma_digits_run(b, i + 1, k);
    } else {
        lemma_digits_end(b, i);
    }
}

} // verus!

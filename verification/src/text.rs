//! Small verified text helpers: decimal rendering of unsigned integers.

use vstd::prelude::*;
use vstd::string::*;

verus! {

/// The ASCII digit character for `d` (0..=9).
pub open spec fn spec_digit(d: nat) -> char {
    if d == 0 { '0' }
    else if d == 1 { '1' }
    else if d == 2 { '2' }
    else if d == 3 { '3' }
    else if d == 4 { '4' }
    else if d == 5 { '5' }
    else if d == 6 { '6' }
    else if d == 7 { '7' }
    else if d == 8 { '8' }
    else { '9' }
}

/// Shortest base-10 spelling of `n`, without sign or leading zeros.
pub open spec fn spec_decimal(n: nat) -> Seq<char>
    decreases n,
{
    if n < 10 {
        seq![spec_digit(n)]
    } else {
        spec_decimal(n / 10) + seq![spec_digit(n % 10)]
    }
}

fn digit_text(d: usize) -> (res: &'static str)
    requires
        d < 10,
    ensures
        res@ == seq![spec_digit(d as nat)],
{
    proof {
        reveal_strlit("0");
        reveal_strlit("1");
        reveal_strlit("2");
        reveal_strlit("3");
        reveal_strlit("4");
        reveal_strlit("5");
        reveal_strlit("6");
        reveal_strlit("7");
        reveal_strlit("8");
        reveal_strlit("9");
    }
    if d == 0 { "0" }
    else if d == 1 { "1" }
    else if d == 2 { "2" }
    else if d == 3 { "3" }
    else if d == 4 { "4" }
    else if d == 5 { "5" }
    else if d == 6 { "6" }
    else if d == 7 { "7" }
    else if d == 8 { "8" }
    else { "9" }
}

/// Appends the decimal spelling of `n` to `out`.
pub fn push_decimal(out: &mut String, n: usize)
    ensures
        final(out)@ == old(out)@ + spec_decimal(n as nat),
    decreases n,
{
    if n < 10 {
        out.append(digit_text(n));
    } else {
        push_decimal(out, n / 10);
        out.append(digit_text(n % 10));
    }
}

} // verus!

verus! {

/// Calls `std::str::from_utf8`, keeping the error's `valid_up_to`.
///
/// Trusted: the standard library documents that `from_utf8` succeeds exactly
/// when the bytes are valid UTF-8, that the returned `&str` borrows exactly
/// those bytes, and that on failure `Utf8Error::valid_up_to` is the largest
/// index such that the bytes before it are valid UTF-8.
#[verifier::external_body]
pub fn utf8_str(bytes: &[u8]) -> (res: Result<&str, usize>)
    ensures
        res is Ok <==> vstd::utf8::valid_utf8(bytes@),
        res matches Ok(s) ==> s.spec_bytes() == bytes@,
        res matches Err(n) ==> n < bytes@.len() && vstd::utf8::valid_utf8(bytes@.take(n as int))
            && forall|m: int| n < m <= bytes@.len() ==> !vstd::utf8::valid_utf8(#[trigger] bytes@.take(m)),
{
    match std::str::from_utf8(bytes) {
        Ok(s) => Ok(s),
        Err(e) => Err(e.valid_up_to()),
    }
}

} // verus!

verus! {

/// Whether two strings are the same text.
pub fn same_text(a: &str, b: &str) -> (res: bool)
    ensures
        res <==> a@ == b@,
{
    let x = a.as_bytes();
    let y = b.as_bytes();
    let res = crate::cbor::keys::compare_keys(x, y) == crate::cbor::keys::KeyOrder::Equal;
    proof {
        vstd::utf8::encode_utf8_decode_utf8(a@);
        vstd::utf8::encode_utf8_decode_utf8(b@);
    }
    res
}

} // verus!

verus! {

/// Calls `String::push`.
///
/// Trusted: the standard library documents that `push` appends the given
/// `char` to the end of the string.
#[verifier::external_body]
pub fn push_char(s: &mut String, c: char)
    ensures
        final(s)@ == old(s)@.push(c),
{
    s.push(c);
}

/// The chars of a string slice, in order.
pub fn collect_chars(s: &str) -> (res: Vec<char>)
    ensures
        res@ == s@,
{
    let mut v: Vec<char> = Vec::new();
    for c in it: s.chars()
        invariant
            v@ == it.seq().take(it.index() as int),
            it.seq() == s@,
    {
        v.push(c);
    }
    v
}

/// The number of UTF-8 bytes encoding `c`.
pub fn char_width(c: char) -> (res: usize)
    ensures
        res == vstd::utf8::encode_scalar(c as u32).len(),
        1 <= res <= 4,
{
    let n = c as u32;
    if n <= 0x7f {
        1
    } else if n <= 0x7ff {
        2
    } else if n <= 0xffff {
        3
    } else {
        4
    }
}

/// UTF-8 encoding distributes over concatenation.
pub proof fn lemma_utf8_concat(a: Seq<char>, b: Seq<char>)
    ensures
        vstd::utf8::encode_utf8(a + b) == vstd::utf8::encode_utf8(a) + vstd::utf8::encode_utf8(b),
    decreases a.len(),
{
    if a.len() == 0 {
        assert(a + b =~= b);
        assert(vstd::utf8::encode_utf8(a) =~= Seq::<u8>::empty());
        assert(Seq::<u8>::empty() + vstd::utf8::encode_utf8(b) =~= vstd::utf8::encode_utf8(b));
    } else {
        assert((a + b).drop_first() =~= a.drop_first() + b);
        lemma_utf8_concat(a.drop_first(), b);
        assert((a + b)[0] == a[0]);
    }
}

/// The UTF-8 length of a prefix grows by the width of each next char.
pub proof fn lemma_utf8_take(c: Seq<char>, k: int)
    requires
        0 <= k < c.len(),
    ensures
        vstd::utf8::encode_utf8(c.take(k + 1)).len()
            == vstd::utf8::encode_utf8(c.take(k)).len() + vstd::utf8::encode_scalar(c[k] as u32).len(),
{
    assert(c.take(k + 1) =~= c.take(k) + seq![c[k]]);
    lemma_utf8_concat(c.take(k), seq![c[k]]);
    assert(seq![c[k]].drop_first() =~= Seq::<char>::empty());
    assert(vstd::utf8::encode_utf8(Seq::<char>::empty()) =~= Seq::<u8>::empty());
}

/// The UTF-8 length of a prefix never exceeds that of the whole.
pub proof fn lemma_utf8_prefix_bound(c: Seq<char>, k: int)
    requires
        0 <= k <= c.len(),
    ensures
        vstd::utf8::encode_utf8(c.take(k)).len() <= vstd::utf8::encode_utf8(c).len(),
{
    assert(c =~= c.take(k) + c.skip(k));
    lemma_utf8_concat(c.take(k), c.skip(k));
}

/// The byte offset just past `c[..end]`, given the offset of `c[..start]`.
pub fn advance_offset(c: &Vec<char>, start: usize, end: usize, offset: usize) -> (res: usize)
    requires
        start <= end <= c@.len(),
        offset == vstd::utf8::encode_utf8(c@.take(start as int)).len(),
        vstd::utf8::encode_utf8(c@.take(end as int)).len() < usize::MAX,
    ensures
        res == vstd::utf8::encode_utf8(c@.take(end as int)).len(),
{
    let mut k = start;
    let mut pos = offset;
    while k < end
        invariant
            start <= k <= end <= c@.len(),
            pos == vstd::utf8::encode_utf8(c@.take(k as int)).len(),
            vstd::utf8::encode_utf8(c@.take(end as int)).len() < usize::MAX,
        decreases end - k,
    {
        proof {
            lemma_utf8_take(c@, k as int);
            lemma_utf8_prefix_bound(c@.take(end as int), k + 1);
            assert(c@.take(end as int).take(k + 1) =~= c@.take(k + 1));
        }
        pos = pos + char_width(c[k]);
        k = k + 1;
    }
    pos
}

} // verus!

//! Header and scalar byte production for the deterministic profile.

use vstd::prelude::*;
use vstd::arithmetic::power2::{pow2, lemma2_to64, lemma2_to64_rest, lemma_pow2_pos};

use super::value::{spec_be, spec_exponent, spec_f16_bits, spec_f16_exact, spec_f32_bits, spec_f32_exact, spec_float_bytes, spec_fraction, spec_head, spec_sign};

verus! {

/// The header forms this crate hands to the `cbor2` backend.
pub enum Head {
    /// Major type 0 with an unsigned argument.
    Positive(u64),
    /// Major type 1 with the argument `-1 - n`.
    Negative(u64),
    /// A one-byte simple value (below 24).
    Simple(u8),
}

/// The bytes `cbor2` writes for a header.
pub open spec fn spec_backend_head(head: Head) -> Seq<u8> {
    match head {
        Head::Positive(x) => spec_head(0, x as nat),
        Head::Negative(x) => spec_head(1, x as nat),
        Head::Simple(s) => seq![(224 + s) as u8],
    }
}

/// Calls `cbor2::core::Encoder::push` on a fresh growable buffer.
///
/// Trusted: `push` writes integer headers with the shortest argument width
/// (RFC 8949 preferred serialization: inline below 24, then 1, 2, 4 or 8
/// big-endian bytes after additional information 24..27) and a simple value
/// below 24 as the single byte `0xe0 | value`. Writing to a `Vec<u8>` cannot
/// fail, so the returned result is discarded.
#[verifier::external_body]
pub(crate) fn backend_head(head: Head) -> (res: Vec<u8>)
    requires
        head matches Head::Simple(s) ==> s < 24,
    ensures
        res@ == spec_backend_head(head),
{
    let header = match head {
        Head::Positive(x) => cbor2::core::Header::Positive(x),
        Head::Negative(x) => cbor2::core::Header::Negative(x),
        Head::Simple(s) => cbor2::core::Header::Simple(s),
    };
    let mut out = Vec::new();
    let _ = cbor2::core::Encoder::from(&mut out).push(header);
    out
}

/// The shortest header for `major` (0..=7) and `argument`.
pub fn head_bytes(major: u8, argument: u64) -> (res: Vec<u8>)
    requires
        major < 8,
    ensures
        res@ == spec_head(major as nat, argument as nat),
        1 <= res@.len() <= 9,
{
    let mut bytes = backend_head(Head::Positive(argument));
    proof {
        reveal_with_fuel(spec_be, 9);
    }
    let first = bytes[0];
    assert(first < 32);
    bytes.set(0, first + major * 32);
    assert(bytes@ =~= spec_head(major as nat, argument as nat));
    bytes
}

/// The shortest header for `major` (0..=7) and `argument`, in fixed stack
/// scratch even for the largest argument: the first `len` bytes are the header.
pub fn header(major: u8, argument: u64) -> (res: ([u8; 9], usize))
    requires
        major < 8,
    ensures
        1 <= res.1 <= 9,
        res.0@.subrange(0, res.1 as int) == spec_head(major as nat, argument as nat),
{
    let head = head_bytes(major, argument);
    let mut bytes = [0u8; 9];
    let len = head.len();
    let mut i: usize = 0;
    while i < len
        invariant
            i <= len,
            len == head@.len(),
            1 <= len <= 9,
            bytes@.len() == 9,
            forall|j: int| 0 <= j < i ==> bytes@[j] == head@[j],
        decreases len - i,
    {
        bytes.set(i, head[i]);
        i = i + 1;
    }
    assert(bytes@.subrange(0, len as int) =~= head@);
    (bytes, len)
}

/// Appends `bytes` to `out`.
pub fn append_bytes(out: &mut Vec<u8>, bytes: &[u8])
    ensures
        final(out)@ == old(out)@ + bytes@,
{
    let mut i: usize = 0;
    while i < bytes.len()
        invariant
            i <= bytes@.len(),
            out@ == old(out)@ + bytes@.subrange(0, i as int),
        decreases bytes@.len() - i,
    {
        out.push(bytes[i]);
        i = i + 1;
        assert(out@ =~= old(out)@ + bytes@.subrange(0, i as int));
    }
    assert(bytes@.subrange(0, bytes@.len() as int) =~= bytes@);
}

/// Appends `n` big-endian low-order bytes of `arg`.
pub fn push_be(out: &mut Vec<u8>, arg: u64, n: usize)
    requires
        n <= 8,
    ensures
        final(out)@ == old(out)@ + spec_be(arg as nat, n as nat),
    decreases n,
{
    if n > 0 {
        push_be(out, arg / 256, n - 1);
        out.push((arg % 256) as u8);
    }
}

/// `2^k` for `k < 64`.
pub fn pow2_u64(k: u64) -> (res: u64)
    requires
        k < 64,
    ensures
        res as nat == pow2(k as nat),
{
    proof {
        vstd::bits::lemma_u64_pow2_no_overflow(k as nat);
        vstd::bits::lemma_u64_shl_is_mul(1, k);
    }
    1u64 << k
}

/// Splits a bit pattern into sign, exponent and fraction fields.
pub fn float_fields(bits: u64) -> (res: (u64, u64, u64))
    ensures
        res.0 as nat == spec_sign(bits),
        res.1 as nat == spec_exponent(bits),
        res.2 as nat == spec_fraction(bits),
{
    let sign = bits >> 63u64;
    let exponent = (bits >> 52u64) & 0x7ffu64;
    let fraction = bits & 0xf_ffff_ffff_ffffu64;
    proof {
        vstd::bits::lemma_u64_shr_is_div(bits, 63u64);
        vstd::bits::lemma_u64_shr_is_div(bits, 52u64);
        vstd::bits::lemma_u64_low_bits_mask_is_mod(bits >> 52u64, 11);
        vstd::bits::lemma_u64_low_bits_mask_is_mod(bits, 52);
        vstd::bits::lemma_low_bits_mask_values();
        lemma2_to64();
        lemma2_to64_rest();
        assert(vstd::bits::low_bits_mask(52) == 0xf_ffff_ffff_ffff) by {
            vstd::bits::lemma_low_bits_mask_unfold(52);
        }
    }
    (sign, exponent, fraction)
}

/// Appends the preferred (shortest exact) serialization of a finite float.
pub fn push_float(out: &mut Vec<u8>, bits: u64)
    ensures
        final(out)@ == old(out)@ + spec_float_bytes(bits),
{
    let (sign, e, m) = float_fields(bits);
    proof {
        lemma2_to64();
        lemma2_to64_rest();
        lemma_pow2_pos(42);
        assert(sign <= 1) by {
            vstd::arithmetic::div_mod::lemma_div_is_ordered(bits as int, u64::MAX as int, pow2(63) as int);
        }
        assert(e < 2048);
        assert(m < pow2(52));
    }
    let implicit: u64 = 0x10_0000_0000_0000u64 + m;
    let f16_exact = (e == 0 && m == 0)
        || (1009 <= e && e <= 1038 && m % pow2_u64(42) == 0)
        || (999 <= e && e <= 1008 && implicit % pow2_u64(1051 - e) == 0);
    if f16_exact {
        let half: u64 = if e == 0 {
            sign * 32768
        } else if e >= 1009 {
            sign * 32768 + (e - 1008) * 1024 + m / pow2_u64(42)
        } else {
            sign * 32768 + implicit / pow2_u64(1051 - e)
        };
        out.push(0xf9u8);
        push_be(out, half, 2);
        return;
    }
    let f32_exact = (e == 0 && m == 0)
        || (897 <= e && e <= 1150 && m % pow2_u64(29) == 0)
        || (874 <= e && e <= 896 && implicit % pow2_u64(926 - e) == 0);
    if f32_exact {
        let single: u64 = if e == 0 {
            sign * 2147483648
        } else if e >= 897 {
            sign * 2147483648 + (e - 896) * 8388608 + m / pow2_u64(29)
        } else {
            sign * 2147483648 + implicit / pow2_u64(926 - e)
        };
        out.push(0xfau8);
        push_be(out, single, 4);
        return;
    }
    out.push(0xfbu8);
    push_be(out, bits, 8);
}

} // verus!

verus! {

/// The byte size of a float's preferred serialization: 3, 5 or 9.
pub fn float_width(bits: u64) -> (res: usize)
    ensures
        res == spec_float_bytes(bits).len(),
        res == 3 <==> spec_f16_exact(bits),
        res == 5 <==> !spec_f16_exact(bits) && spec_f32_exact(bits),
        res == 9 <==> !spec_f16_exact(bits) && !spec_f32_exact(bits),
{
    let (_sign, e, m) = float_fields(bits);
    proof {
        lemma2_to64();
        lemma2_to64_rest();
        lemma_pow2_pos(42);
        assert(e < 2048);
        assert(m < pow2(52));
        assert(spec_be(spec_f16_bits(bits), 2).len() == 2) by { reveal_with_fuel(spec_be, 3); }
        assert(spec_be(spec_f32_bits(bits), 4).len() == 4) by { reveal_with_fuel(spec_be, 5); }
        assert(spec_be(bits as nat, 8).len() == 8) by { reveal_with_fuel(spec_be, 9); }
    }
    let implicit: u64 = 0x10_0000_0000_0000u64 + m;
    let f16_exact = (e == 0 && m == 0)
        || (1009 <= e && e <= 1038 && m % pow2_u64(42) == 0)
        || (999 <= e && e <= 1008 && implicit % pow2_u64(1051 - e) == 0);
    if f16_exact {
        return 3;
    }
    let f32_exact = (e == 0 && m == 0)
        || (897 <= e && e <= 1150 && m % pow2_u64(29) == 0)
        || (874 <= e && e <= 896 && implicit % pow2_u64(926 - e) == 0);
    if f32_exact {
        return 5;
    }
    9
}

} // verus!

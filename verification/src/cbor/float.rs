//! Widening of binary16 and binary32 bit patterns to binary64, on bits.

use vstd::prelude::*;
use vstd::arithmetic::power2::{lemma2_to64, lemma2_to64_rest, lemma_pow2_adds, lemma_pow2_pos, pow2};

use super::header::pow2_u64;
use super::value::{
    spec_exponent, spec_f16_bits, spec_f16_exact, spec_f32_bits, spec_f32_exact, spec_fraction, spec_sign,
};

verus! {

/// Position of the highest set bit of a positive number.
pub open spec fn spec_log2(f: nat) -> nat
    decreases f,
{
    if f < 2 { 0 } else { 1 + spec_log2(f / 2) }
}

proof fn lemma_log2_bounds(f: nat)
    requires
        f >= 1,
    ensures
        pow2(spec_log2(f)) <= f < pow2(spec_log2(f) + 1),
    decreases f,
{
    vstd::arithmetic::power2::lemma_pow2_unfold(spec_log2(f) + 1);
    if f >= 2 {
        lemma_log2_bounds(f / 2);
        vstd::arithmetic::power2::lemma_pow2_unfold(spec_log2(f));
    } else {
        lemma2_to64();
    }
}

proof fn lemma_log2_unique(f: nat, p: nat)
    requires
        pow2(p) <= f < pow2(p + 1),
    ensures
        spec_log2(f) == p,
{
    lemma_pow2_pos(p);
    lemma_log2_bounds(f);
    let q = spec_log2(f);
    if q < p {
        vstd::arithmetic::power2::lemma_pow2_strictly_increases(q + 1, p + 0);
        if q + 1 < p {
            vstd::arithmetic::power2::lemma_pow2_strictly_increases(q + 1, p);
        }
    } else if q > p {
        if p + 1 < q {
            vstd::arithmetic::power2::lemma_pow2_strictly_increases(p + 1, q);
        }
    }
}

/// Binary64 bits of a finite binary16 pattern; `None` for NaN or infinity.
pub open spec fn spec_widen16(h: nat) -> Option<nat> {
    let s = h / 32768;
    let e = (h / 1024) % 32;
    let f = h % 1024;
    if e == 31 {
        None
    } else if e == 0 && f == 0 {
        Some(s * pow2(63))
    } else if e == 0 {
        let p = spec_log2(f);
        Some(s * pow2(63) + (p + 999) * pow2(52) + ((f - pow2(p)) as nat) * pow2((52 - p) as nat))
    } else {
        Some(s * pow2(63) + (e + 1008) * pow2(52) + f * pow2(42))
    }
}

/// Binary64 bits of a finite binary32 pattern; `None` for NaN or infinity.
pub open spec fn spec_widen32(x: nat) -> Option<nat> {
    let s = x / pow2(31);
    let e = (x / pow2(23)) % 256;
    let f = x % pow2(23);
    if e == 255 {
        None
    } else if e == 0 && f == 0 {
        Some(s * pow2(63))
    } else if e == 0 {
        let p = spec_log2(f);
        Some(s * pow2(63) + (p + 874) * pow2(52) + ((f - pow2(p)) as nat) * pow2((52 - p) as nat))
    } else {
        Some(s * pow2(63) + (e + 896) * pow2(52) + f * pow2(29))
    }
}

fn log2_exec(f: u64) -> (res: u64)
    requires
        f >= 1,
    ensures
        res as nat == spec_log2(f as nat),
        res < 64,
{
    proof {
        lemma_log2_small(f as nat);
    }
    let mut p: u64 = 0;
    let mut g: u64 = f;
    while g >= 2
        invariant
            g >= 1,
            p + spec_log2(g as nat) == spec_log2(f as nat),
            p + 64 <= 64 + spec_log2(f as nat),
            spec_log2(f as nat) < 64,
        decreases g,
    {
        g = g / 2;
        p = p + 1;
    }
    p
}

proof fn lemma_log2_small(f: nat)
    requires
        1 <= f < 18446744073709551616,
    ensures
        spec_log2(f) < 64,
{
    lemma_log2_bounds(f);
    lemma2_to64_rest();
    if spec_log2(f) >= 64 {
        vstd::arithmetic::power2::lemma_pow2_strictly_increases(64, spec_log2(f));
        assert(false);
    }
}

/// Widens a binary16 pattern (below 2^16).
pub fn widen16(h: u64) -> (res: Option<u64>)
    requires
        h < 65536,
    ensures
        res is Some <==> spec_widen16(h as nat) is Some,
        res matches Some(bits) ==> spec_widen16(h as nat) == Some(bits as nat),
{
    proof {
        lemma2_to64();
        lemma2_to64_rest();
    }
    let s = h / 32768;
    let e = (h / 1024) % 32;
    let f = h % 1024;
    if e == 31 {
        None
    } else if e == 0 && f == 0 {
        Some(s * 0x8000_0000_0000_0000u64)
    } else if e == 0 {
        proof {
            lemma_log2_small(f as nat);
        }
        let p = log2_exec(f);
        proof {
            lemma_log2_bounds(f as nat);
            assert(p < 10) by {
                if p >= 10 {
                    vstd::arithmetic::power2::lemma_pow2_strictly_increases(10, p as nat);
                }
            }
            vstd::arithmetic::power2::lemma_pow2_strictly_increases((52 - p) as nat, 53);
            vstd::arithmetic::power2::lemma_pow2_strictly_increases(p as nat, 10);
            assert((f - pow2(p as nat)) * pow2((52 - p) as nat) < pow2(p as nat) * pow2((52 - p) as nat)) by (nonlinear_arith)
                requires f < 2 * pow2(p as nat), f >= pow2(p as nat), pow2((52 - p) as nat) > 0;
            lemma_pow2_adds(p as nat, (52 - p) as nat);
        }
        let m = (f - pow2_u64(p)) * pow2_u64(52 - p);
        Some(s * 0x8000_0000_0000_0000u64 + (p + 999) * 0x10_0000_0000_0000u64 + m)
    } else {
        Some(s * 0x8000_0000_0000_0000u64 + (e + 1008) * 0x10_0000_0000_0000u64 + f * 0x400_0000_0000u64)
    }
}

/// Widens a binary32 pattern (below 2^32).
pub fn widen32(x: u64) -> (res: Option<u64>)
    requires
        x < 4294967296,
    ensures
        res is Some <==> spec_widen32(x as nat) is Some,
        res matches Some(bits) ==> spec_widen32(x as nat) == Some(bits as nat),
{
    proof {
        lemma2_to64();
        lemma2_to64_rest();
    }
    let s = x / 2147483648;
    let e = (x / 8388608) % 256;
    let f = x % 8388608;
    if e == 255 {
        None
    } else if e == 0 && f == 0 {
        Some(s * 0x8000_0000_0000_0000u64)
    } else if e == 0 {
        proof {
            lemma_log2_small(f as nat);
        }
        let p = log2_exec(f);
        proof {
            lemma_log2_bounds(f as nat);
            assert(p < 23) by {
                if p >= 23 {
                    vstd::arithmetic::power2::lemma_pow2_strictly_increases(23, p as nat);
                }
            }
            vstd::arithmetic::power2::lemma_pow2_strictly_increases(p as nat, 23);
            assert((f - pow2(p as nat)) * pow2((52 - p) as nat) < pow2(p as nat) * pow2((52 - p) as nat)) by (nonlinear_arith)
                requires f < 2 * pow2(p as nat), f >= pow2(p as nat), pow2((52 - p) as nat) > 0;
            lemma_pow2_adds(p as nat, (52 - p) as nat);
        }
        let m = (f - pow2_u64(p)) * pow2_u64(52 - p);
        Some(s * 0x8000_0000_0000_0000u64 + (p + 874) * 0x10_0000_0000_0000u64 + m)
    } else {
        Some(s * 0x8000_0000_0000_0000u64 + (e + 896) * 0x10_0000_0000_0000u64 + f * 0x2000_0000u64)
    }
}


/// A binary64 pattern is its sign, exponent and fraction fields.
pub proof fn lemma_fields(bits: u64)
    ensures
        spec_sign(bits) <= 1,
        spec_exponent(bits) < 2048,
        spec_fraction(bits) < pow2(52),
        bits as nat == spec_sign(bits) * pow2(63) + spec_exponent(bits) * pow2(52) + spec_fraction(bits),
{
    lemma2_to64();
    lemma2_to64_rest();
    let b = bits as nat;
    let hi = b / 4503599627370496;
    assert(b == hi * 4503599627370496 + b % 4503599627370496) by (nonlinear_arith)
        requires hi == b / 4503599627370496;
    assert(hi < 4096) by (nonlinear_arith)
        requires hi == b / 4503599627370496, b < 18446744073709551616;
    assert(hi == (hi / 2048) * 2048 + hi % 2048) by (nonlinear_arith);
    assert(b / 9223372036854775808 == hi / 2048) by (nonlinear_arith)
        requires hi == b / 4503599627370496, b < 18446744073709551616;
}

/// The binary16 pattern of an exactly representable value widens back to it.
pub proof fn lemma_widen16_inverse(bits: u64)
    requires
        spec_f16_exact(bits),
    ensures
        spec_f16_bits(bits) < 65536,
        spec_widen16(spec_f16_bits(bits)) == Some(bits as nat),
{
    lemma2_to64();
    lemma2_to64_rest();
    lemma_fields(bits);
    let s = spec_sign(bits);
    let e = spec_exponent(bits);
    let m = spec_fraction(bits);
    let h = spec_f16_bits(bits);
    if e == 0 {
        assert(m == 0);
        assert(h == s * 32768);
        assert(h / 32768 == s && (h / 1024) % 32 == 0 && h % 1024 == 0) by (nonlinear_arith)
            requires h == s * 32768, s <= 1;
    } else if e >= 1009 {
        let q = m / pow2(42);
        assert(m == q * 4398046511104 && q < 1024) by (nonlinear_arith)
            requires m % 4398046511104 == 0, m < 4503599627370496, q == m / 4398046511104;
        assert(h == s * 32768 + (e - 1008) * 1024 + q);
        assert(h / 32768 == s && (h / 1024) % 32 == e - 1008 && h % 1024 == q) by (nonlinear_arith)
            requires h == s * 32768 + (e - 1008) * 1024 + q, s <= 1, 1 <= e - 1008 <= 30, q < 1024;
    } else {
        let k = (1051 - e) as nat;
        let x = pow2(52) + m;
        let f = x / pow2(k);
        lemma_subnormal(m, k, 10);
        assert(h == s * 32768 + f);
        assert(h / 32768 == s && (h / 1024) % 32 == 0 && h % 1024 == f) by (nonlinear_arith)
            requires h == s * 32768 + f, s <= 1, 1 <= f < 1024;
    }
}

/// The binary32 pattern of an exactly representable value widens back to it.
pub proof fn lemma_widen32_inverse(bits: u64)
    requires
        spec_f32_exact(bits),
    ensures
        spec_f32_bits(bits) < 4294967296,
        spec_widen32(spec_f32_bits(bits)) == Some(bits as nat),
{
    lemma2_to64();
    lemma2_to64_rest();
    lemma_fields(bits);
    let s = spec_sign(bits);
    let e = spec_exponent(bits);
    let m = spec_fraction(bits);
    let h = spec_f32_bits(bits);
    if e == 0 {
        assert(m == 0);
        assert(h == s * 2147483648);
        assert(h / 2147483648 == s && (h / 8388608) % 256 == 0 && h % 8388608 == 0) by (nonlinear_arith)
            requires h == s * 2147483648, s <= 1;
    } else if e >= 897 {
        let q = m / pow2(29);
        assert(m == q * 536870912 && q < 8388608) by (nonlinear_arith)
            requires m % 536870912 == 0, m < 4503599627370496, q == m / 536870912;
        assert(h == s * 2147483648 + (e - 896) * 8388608 + q);
        assert(h / 2147483648 == s && (h / 8388608) % 256 == e - 896 && h % 8388608 == q) by (nonlinear_arith)
            requires h == s * 2147483648 + (e - 896) * 8388608 + q, s <= 1, 1 <= e - 896 <= 254, q < 8388608;
    } else {
        let k = (926 - e) as nat;
        let x = pow2(52) + m;
        let f = x / pow2(k);
        lemma_subnormal(m, k, 23);
        assert(h == s * 2147483648 + f);
        assert(h / 2147483648 == s && (h / 8388608) % 256 == 0 && h % 8388608 == f) by (nonlinear_arith)
            requires h == s * 2147483648 + f, s <= 1, 1 <= f < 8388608;
    }
}

/// Scaling a 53-bit significand down by an exact power of two and back.
proof fn lemma_subnormal(m: nat, k: nat, width: nat)
    requires
        m < pow2(52),
        53 - width <= k <= 52,
        width <= 23,
        (pow2(52) + m) % pow2(k) == 0,
    ensures
        ({
            let f = (pow2(52) + m) / pow2(k);
            &&& 1 <= f < pow2(width)
            &&& spec_log2(f) == 52 - k
            &&& ((f - pow2(spec_log2(f))) as nat) * pow2((52 - spec_log2(f)) as nat) == m
        }),
{
    let x = pow2(52) + m;
    let big = pow2(k);
    let small = pow2((52 - k) as nat);
    lemma_pow2_pos(k);
    lemma_pow2_pos((52 - k) as nat);
    lemma_pow2_adds((52 - k) as nat, k);
    lemma_pow2_adds((53 - k) as nat, k);
    vstd::arithmetic::power2::lemma_pow2_unfold((53 - k) as nat);
    lemma_pow2_adds(52, 1);
    lemma2_to64();
    let f = x / big;
    assert(f * big == x) by (nonlinear_arith)
        requires x % big == 0, big > 0, f == x / big;
    assert(small * big == pow2(52));
    assert(small <= f && f < 2 * small) by (nonlinear_arith)
        requires f * big == x, small * big <= x, x < 2 * small * big, big > 0;
    lemma_log2_unique(f, (52 - k) as nat);
    assert((f - small) * big == m) by (nonlinear_arith)
        requires f * big == x, small * big == x - m, f >= small;
    if 53 - k < width {
        vstd::arithmetic::power2::lemma_pow2_strictly_increases((53 - k) as nat, width);
    }
    assert(small >= 1);
}

} // verus!

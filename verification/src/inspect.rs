//! Figures printed when a scene is inspected: memory estimates and their
//! human-readable form.
use vstd::prelude::*;

use vstd::arithmetic::power2::pow2;

use crate::text::{decimal_chars, decimal_digits, digit_char, string_from_chars};

verus! {

/// Scalars every splat record holds besides its `f_rest` coefficients:
/// position, DC color, opacity, scale and rotation.
pub const FIXED_SCALARS: usize = 14;

/// Bytes of one splat as stored: its 32-bit scalars, or the in-memory
/// record when that is larger.
pub open spec fn raw_bytes_per_splat(f_rest_count: int, record_bytes: int) -> int {
    let scalar_bytes = (14 + f_rest_count) * 4;
    if scalar_bytes < record_bytes {
        record_bytes
    } else {
        scalar_bytes
    }
}

/// The estimated size of one splat's raw data: 4 bytes per scalar
/// (`f_rest_count` of them beyond the fixed 14), and never less than the
/// `record_bytes` an in-memory record takes.
pub fn estimated_raw_bytes_per_splat(f_rest_count: usize, record_bytes: usize) -> (r: usize)
    requires
        (14 + f_rest_count) * 4 <= usize::MAX,
    ensures
        r == raw_bytes_per_splat(f_rest_count as int, record_bytes as int),
{
    let scalar_bytes = (FIXED_SCALARS + f_rest_count) * 4;
    if scalar_bytes < record_bytes {
        record_bytes
    } else {
        scalar_bytes
    }
}

/// Halvings that bring `n` below `2^53`: how many low bits a double drops.
pub open spec fn excess_bits(n: nat) -> nat
    decreases n,
{
    if n < 0x20_0000_0000_0000 {
        0
    } else {
        1 + excess_bits(n / 2)
    }
}

/// `n` rounded to 53 significant bits, halfway cases to even: the value of
/// `n` converted to a double.
pub open spec fn double_value(n: nat) -> nat {
    let ulp = pow2(excess_bits(n));
    let q = n / ulp;
    let r = n % ulp;
    if 2 * r > ulp || (2 * r == ulp && q % 2 == 1) {
        (q + 1) * ulp
    } else {
        q * ulp
    }
}

/// `a / d` rounded to the nearest integer, halfway cases to even.
pub open spec fn div_round_even(a: nat, d: nat) -> nat {
    let q = a / d;
    let r = a % d;
    if 2 * r > d || (2 * r == d && q % 2 == 1) {
        q + 1
    } else {
        q
    }
}

/// `hundredths / 100` written with exactly two decimals.
pub open spec fn two_decimals(hundredths: nat) -> Seq<char> {
    decimal_digits(hundredths / 100) + seq!['.'] + seq![digit_char((hundredths / 10) % 10)] + seq![
        digit_char(hundredths % 10),
    ]
}

/// The text `format_bytes` gives for `bytes`: below one KiB the exact
/// count, else the count in the largest binary unit it reaches, with two
/// decimals rounded half to even.
pub open spec fn bytes_text(bytes: nat) -> Seq<char> {
    let b = double_value(bytes);
    if b >= 0x4000_0000 {
        two_decimals(div_round_even(b * 100, 0x4000_0000)) + " GiB"@
    } else if b >= 0x10_0000 {
        two_decimals(div_round_even(b * 100, 0x10_0000)) + " MiB"@
    } else if b >= 0x400 {
        two_decimals(div_round_even(b * 100, 0x400)) + " KiB"@
    } else {
        decimal_digits(b) + " B"@
    }
}

/// `n` as a double, as an integer.
fn double_of(n: u64) -> (b: u128)
    ensures
        b == double_value(n as nat),
        b <= 0x2_0000_0000_0000_0000,
{
    let mut m: u64 = n;
    let mut ulp: u128 = 1;
    let ghost mut k: nat = 0;
    proof {
        vstd::arithmetic::power2::lemma_pow2(0);
        vstd::arithmetic::power::lemma_pow0(2);
    }
    while m >= 0x20_0000_0000_0000
        invariant
            ulp == pow2(k),
            1 <= ulp <= 4096,
            m == (n as nat) / (ulp as nat),
            excess_bits(n as nat) == k + excess_bits(m as nat),
            ulp * m <= n,
        decreases m,
    {
        proof {
            vstd::arithmetic::power2::lemma_pow2_unfold(k + 1);
            vstd::arithmetic::div_mod::lemma_div_denominator(n as int, ulp as int, 2);
            assert(ulp < 2048) by (nonlinear_arith)
                requires
                    ulp * m <= n,
                    m >= 0x20_0000_0000_0000,
                    n <= u64::MAX,
            ;
            vstd::arithmetic::div_mod::lemma_fundamental_div_mod(m as int, 2);
            assert((ulp * 2) * (m / 2) <= ulp * m) by (nonlinear_arith)
                requires
                    m == 2 * (m / 2) + m % 2,
                    ulp >= 1,
            ;
            assert(ulp * 2 == 2 * ulp);
        }
        m = m / 2;
        ulp = ulp * 2;
        proof {
            k = k + 1;
        }
    }
    let wide = n as u128;
    let q = wide / ulp;
    let r = wide % ulp;
    proof {
        vstd::arithmetic::div_mod::lemma_fundamental_div_mod(wide as int, ulp as int);
        assert(q * ulp <= wide) by (nonlinear_arith)
            requires
                wide == ulp * q + r,
                r >= 0,
        ;
        assert((q + 1) * ulp <= wide + ulp) by (nonlinear_arith)
            requires
                wide == ulp * q + r,
                r >= 0,
        ;
    }
    if 2 * r > ulp || (2 * r == ulp && q % 2 == 1) {
        (q + 1) * ulp
    } else {
        q * ulp
    }
}

/// `a / d` rounded to the nearest integer, halfway cases to even.
fn div_round_even_u128(a: u128, d: u128) -> (r: u128)
    requires
        0 < d <= 0x1_0000_0000,
    ensures
        r == div_round_even(a as nat, d as nat),
{
    let q = a / d;
    let rem = a % d;
    if 2 * rem > d || (2 * rem == d && q % 2 == 1) {
        proof {
            assert(d >= 2);
            vstd::arithmetic::div_mod::lemma_div_is_ordered_by_denominator(a as int, 2, d as int);
        }
        q + 1
    } else {
        q
    }
}

/// Appends the characters of `s`.
fn push_all(out: &mut Vec<char>, s: &[char])
    ensures
        final(out)@ == old(out)@ + s@,
{
    let mut i: usize = 0;
    while i < s.len()
        invariant
            i <= s@.len(),
            out@ == old(out)@ + s@.take(i as int),
        decreases s.len() - i,
    {
        out.push(s[i]);
        assert(s@.take(i + 1) == s@.take(i as int).push(s@[i as int]));
        i += 1;
    }
    assert(s@.take(s@.len() as int) == s@);
}

/// `hundredths / 100` with two decimals, followed by `unit`.
fn two_decimals_with(hundredths: u64, unit: &str) -> (v: Vec<char>)
    ensures
        v@ == two_decimals(hundredths as nat) + unit@,
{
    let mut v = decimal_chars(hundredths / 100);
    v.push('.');
    v.push((((hundredths / 10) % 10) as u8 + 48) as char);
    v.push(((hundredths % 10) as u8 + 48) as char);
    let u = crate::text::collect_chars(unit);
    push_all(&mut v, u.as_slice());
    v
}

/// A byte count for people: `512 B`, `1.00 KiB`, `3.50 MiB`, `1.25 GiB`.
pub fn format_bytes(bytes: usize) -> (s: String)
    ensures
        s@ == bytes_text(bytes as nat),
{
    let b = double_of(bytes as u64);
    let v = if b >= 0x4000_0000 {
        let h = div_round_even_u128(b * 100, 0x4000_0000);
        proof {
            vstd::arithmetic::div_mod::lemma_div_is_ordered(b * 100, 0x2_0000_0000_0000_0000int * 100, 0x4000_0000);
        }
        two_decimals_with(h as u64, " GiB")
    } else if b >= 0x10_0000 {
        let h = div_round_even_u128(b * 100, 0x10_0000);
        two_decimals_with(h as u64, " MiB")
    } else if b >= 0x400 {
        let h = div_round_even_u128(b * 100, 0x400);
        two_decimals_with(h as u64, " KiB")
    } else {
        let mut v = decimal_chars(b as u64);
        let u = crate::text::collect_chars(" B");
        push_all(&mut v, u.as_slice());
        v
    };
    string_from_chars(v.as_slice())
}

} // verus!

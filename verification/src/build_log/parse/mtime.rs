use vstd::prelude::*;
use crate::numeric::{
    all_ascii_digits, decimal_digits, decimal_value, lemma_decimal_digits,
    lemma_i64_wrapping_add, lemma_i64_wrapping_mul, lemma_wrap_mod,
    lemma_wrap_step, modulus_64, no_byte_below_zero_digit, signed_decimal_text, wrap_signed,
};

verus! {

/// Reads the bytes as decimal digits into an `i64`, wrapping on overflow.
pub fn normal_atoi_mtime(bytes: &[u8]) -> (result: i64)
    requires
        no_byte_below_zero_digit(bytes@),
    ensures
        result as int == wrap_signed(decimal_value(bytes@), modulus_64()),
{
    let mut result: i64 = 0;
    let mut i: usize = 0;
    while i < bytes.len()
        invariant
            i <= bytes.len(),
            no_byte_below_zero_digit(bytes@),
            result as int == wrap_signed(decimal_value(bytes@.take(i as int)), modulus_64()),
        decreases bytes.len() - i,
    {
        let byte = bytes[i];
        assert(bytes@[i as int] >= 48);
        let digit = (byte - 48u8) as i64;
        let ghost prev = decimal_value(bytes@.take(i as int));
        proof {
            lemma_i64_wrapping_mul(result, 10);
            lemma_wrap_step(prev, 0, modulus_64());
            lemma_wrap_mod(prev * 10, modulus_64());
            lemma_i64_wrapping_add(vstd::wrapping::i64_specs::wrapping_mul(result, 10), digit);
            lemma_wrap_step(prev, digit as int, modulus_64());
            lemma_wrap_mod(prev, modulus_64());
            assert(bytes@.take(i + 1).drop_last() =~= bytes@.take(i as int));
        }
        result = result.wrapping_mul(10).wrapping_add(digit);
        i = i + 1;
    }
    assert(bytes@.take(bytes.len() as int) =~= bytes@);
    result
}

/// A first byte below `b'.'` (such as `-`) marks the number as negative and is
/// not a digit.
pub open spec fn has_sign_byte(bytes: Seq<u8>) -> bool {
    bytes.len() > 0 && bytes[0] < 46
}

/// The digits of a signed decimal number: everything after the sign byte.
pub open spec fn magnitude_digits(bytes: Seq<u8>) -> Seq<u8> {
    if has_sign_byte(bytes) {
        bytes.skip(1)
    } else {
        bytes
    }
}

/// The signed number that `bytes` writes: the decimal value of its digits,
/// negated when it starts with a sign byte.
pub open spec fn signed_decimal_value(bytes: Seq<u8>) -> int {
    if has_sign_byte(bytes) {
        -decimal_value(magnitude_digits(bytes))
    } else {
        decimal_value(magnitude_digits(bytes))
    }
}

/// The inputs that the signed parser accepts: at least one byte, only ASCII
/// digits after the sign byte, and a signed value within the `i64` range
/// (from `i64::MIN` to `i64::MAX`).
pub open spec fn signed_decimal_in_range(bytes: Seq<u8>) -> bool {
    &&& bytes.len() >= 1
    &&& all_ascii_digits(magnitude_digits(bytes))
    &&& i64::MIN <= signed_decimal_value(bytes) <= i64::MAX
}

proof fn lemma_ascii_digits_readable(digits: Seq<u8>)
    requires
        all_ascii_digits(digits),
    ensures
        no_byte_below_zero_digit(digits),
{
    assert forall|k: int| 0 <= k < digits.len() implies #[trigger] digits[k] >= 48 by {
        assert(48 <= digits[k] <= 57);
    }
}

/// Parses a signed decimal `i64`: a first byte below `b'.'` is taken as the
/// minus sign, the following bytes are read as decimal digits into the
/// magnitude with wrapping arithmetic, and the magnitude is negated (wrapping)
/// when there is a sign. On digit text this is the signed value wrapped into
/// the `i64` range, and so the signed value itself whenever that fits
/// (`i64::MIN` included). What it gives for other bytes is not stated.
pub fn atoi_i64_signed(bytes: &[u8]) -> (r: i64)
    requires
        bytes@.len() >= 1,
        wrapping_reader_accepts(bytes@),
    ensures
        all_ascii_digits(magnitude_digits(bytes@)) ==> r as int == wrapping_signed_value(bytes@),
        signed_decimal_in_range(bytes@) ==> r as int == signed_decimal_value(bytes@),
{
    let negative = bytes[0] < 46;
    let start: usize = if negative { 1 } else { 0 };
    let ghost digits = magnitude_digits(bytes@);
    assert(digits =~= bytes@.skip(start as int));
    let mut magnitude: i64 = 0;
    let mut i = start;
    while i < bytes.len()
        invariant
            start <= i <= bytes@.len(),
            digits == bytes@.skip(start as int),
            no_byte_below_zero_digit(digits),
            magnitude as int == wrap_signed(decimal_value(digits.take(i - start)), modulus_64()),
        decreases bytes@.len() - i,
    {
        let byte = bytes[i];
        assert(digits[i - start] == byte);
        assert(byte >= 48);
        let digit = (byte - 48u8) as i64;
        let ghost prev = decimal_value(digits.take(i - start));
        proof {
            lemma_i64_wrapping_mul(magnitude, 10);
            lemma_wrap_step(prev, 0, modulus_64());
            lemma_wrap_mod(prev * 10, modulus_64());
            lemma_i64_wrapping_add(vstd::wrapping::i64_specs::wrapping_mul(magnitude, 10), digit);
            lemma_wrap_step(prev, digit as int, modulus_64());
            lemma_wrap_mod(prev, modulus_64());
            assert(digits.take(i - start + 1).drop_last() =~= digits.take(i - start));
        }
        magnitude = magnitude.wrapping_mul(10).wrapping_add(digit);
        i = i + 1;
    }
    assert(digits.take(digits.len() as int) =~= digits);
    let r = if negative {
        proof {
            crate::numeric::lemma_i64_wrapping_neg(magnitude, decimal_value(digits));
        }
        0i64.wrapping_sub(magnitude)
    } else {
        magnitude
    };
    proof {
        if signed_decimal_in_range(bytes@) {
            crate::numeric::lemma_wrap_small(signed_decimal_value(bytes@), modulus_64());
        }
    }
    r
}

/// The wrapping signed reading of `bytes`: the signed decimal value, wrapped
/// into the `i64` range as two's-complement arithmetic does.
pub open spec fn wrapping_signed_value(bytes: Seq<u8>) -> int {
    wrap_signed(signed_decimal_value(bytes), modulus_64())
}

/// The inputs the wrapping signed reader accepts: no byte below `b'0'` after
/// the sign byte.
pub open spec fn wrapping_reader_accepts(bytes: Seq<u8>) -> bool {
    no_byte_below_zero_digit(magnitude_digits(bytes))
}

/// Whether the wrapping signed reader accepts `bytes`.
pub fn wrapping_signed_accepted(bytes: &[u8]) -> (r: bool)
    ensures
        r == wrapping_reader_accepts(bytes@),
{
    let start: usize = if bytes.len() > 0 && bytes[0] < 46 { 1 } else { 0 };
    let ghost digits = magnitude_digits(bytes@);
    assert(digits =~= bytes@.skip(start as int));
    let mut i = start;
    while i < bytes.len()
        invariant
            start <= i <= bytes@.len(),
            digits == magnitude_digits(bytes@),
            digits == bytes@.skip(start as int),
            forall|k: int| 0 <= k < i - start ==> digits[k] >= 48,
        decreases bytes@.len() - i,
    {
        if bytes[i] < 48 {
            assert(digits[i - start] < 48);
            return false;
        }
        i = i + 1;
    }
    true
}

/// Reads `bytes` as a signed decimal with wrapping arithmetic: the digits
/// after an optional sign byte are read with `normal_atoi_mtime`, and negated
/// (wrapping) when there is a sign.
pub fn atoi_i64_wrapping_signed(bytes: &[u8]) -> (r: i64)
    requires
        wrapping_reader_accepts(bytes@),
    ensures
        r as int == wrapping_signed_value(bytes@),
{
    if bytes.len() > 0 && bytes[0] < 46 {
        let rest = vstd::slice::slice_subrange(bytes, 1, bytes.len());
        assert(rest@ =~= magnitude_digits(bytes@));
        let v = normal_atoi_mtime(rest);
        proof {
            crate::numeric::lemma_i64_wrapping_neg(v, decimal_value(rest@));
        }
        0i64.wrapping_sub(v)
    } else {
        assert(bytes@ =~= magnitude_digits(bytes@));
        normal_atoi_mtime(bytes)
    }
}

/// Reads an `i64` with the reader that the processor supports (`sse41` tells
/// whether it offers SSE4.1). Both read digit text as its signed value wrapped
/// into the `i64` range; without SSE4.1 that is also what any accepted input
/// gives.
#[allow(non_snake_case)]
pub fn ninja_rs__atoi_i64_variable(input: &[u8], sse41: bool) -> (r: i64)
    requires
        sse41 ==> input@.len() >= 1,
        wrapping_reader_accepts(input@),
    ensures
        !sse41 ==> r as int == wrapping_signed_value(input@),
        all_ascii_digits(magnitude_digits(input@)) ==> r as int == wrapping_signed_value(input@),
        signed_decimal_in_range(input@) ==> r as int == signed_decimal_value(input@),
{
    if !sse41 {
        let r = atoi_i64_wrapping_signed(input);
        proof {
            if signed_decimal_in_range(input@) {
                crate::numeric::lemma_wrap_small(signed_decimal_value(input@), modulus_64());
            }
        }
        r
    } else {
        atoi_i64_signed(input)
    }
}

/// Every `i64`, written in decimal (with a leading `-` when negative), is
/// digit text that both readers accept and read back as itself, with SSE4.1
/// and without.
pub proof fn law_signed_decimal_round_trip(n: i64)
    ensures
        signed_decimal_in_range(signed_decimal_text(n as int)),
        signed_decimal_value(signed_decimal_text(n as int)) == n,
        all_ascii_digits(magnitude_digits(signed_decimal_text(n as int))),
        wrapping_reader_accepts(signed_decimal_text(n as int)),
        wrapping_signed_value(signed_decimal_text(n as int)) == n,
{
    let t = signed_decimal_text(n as int);
    crate::numeric::lemma_wrap_small(n as int, modulus_64());
    if n < 0 {
        let m = (-n) as nat;
        lemma_decimal_digits(m);
        assert(t[0] == 45u8);
        assert(t.skip(1) =~= decimal_digits(m));
    } else {
        let m = n as nat;
        lemma_decimal_digits(m);
        assert(48 <= t[0] <= 57);
    }
    lemma_ascii_digits_readable(magnitude_digits(t));
}

/// Ten to the power `n`.
pub open spec fn pow10(n: nat) -> int
    decreases n,
{
    if n == 0 {
        1
    } else {
        10 * pow10((n - 1) as nat)
    }
}

/// The digits of `a` followed by those of `b` read as the value of `a` shifted
/// left by the length of `b`, plus the value of `b`. Wrapped to an `i64`, as
/// the wrapping readers (`normal_atoi_mtime`, `fast_atoi_i64`) give it, the
/// reading of `a ++ b` is the wrapping product of the reading of `a` and the
/// wrapped power of ten, wrapping-plus the reading of `b`.
pub proof fn law_decimal_concat(a: Seq<u8>, b: Seq<u8>)
    ensures
        decimal_value(a + b) == decimal_value(a) * pow10(b.len()) + decimal_value(b),
        wrap_signed(decimal_value(a + b), modulus_64()) == wrap_signed(
            wrap_signed(
                wrap_signed(decimal_value(a), modulus_64()) * wrap_signed(pow10(b.len()), modulus_64()),
                modulus_64(),
            ) + wrap_signed(decimal_value(b), modulus_64()),
            modulus_64(),
        ),
{
    lemma_decimal_concat(a, b);
    let m = modulus_64();
    let va = decimal_value(a);
    let vb = decimal_value(b);
    let p = pow10(b.len());
    let wa = wrap_signed(va, m);
    let wp = wrap_signed(p, m);
    let wb = wrap_signed(vb, m);
    let wprod = wrap_signed(wa * wp, m);
    crate::numeric::lemma_wrap_mod(va, m);
    crate::numeric::lemma_wrap_mod(p, m);
    crate::numeric::lemma_wrap_mod(vb, m);
    crate::numeric::lemma_wrap_mod(wa * wp, m);
    vstd::arithmetic::div_mod::lemma_mul_mod_noop_general(wa, wp, m);
    vstd::arithmetic::div_mod::lemma_mul_mod_noop_general(va, p, m);
    vstd::arithmetic::div_mod::lemma_add_mod_noop(wprod, wb, m);
    vstd::arithmetic::div_mod::lemma_add_mod_noop(va * p, vb, m);
    crate::numeric::lemma_wrap_congruent(wprod + wb, va * p + vb, m);
}

proof fn lemma_decimal_concat(a: Seq<u8>, b: Seq<u8>)
    ensures
        decimal_value(a + b) == decimal_value(a) * pow10(b.len()) + decimal_value(b),
    decreases b.len(),
{
    if b.len() == 0 {
        assert(a + b =~= a);
    } else {
        let b2 = b.drop_last();
        lemma_decimal_concat(a, b2);
        assert((a + b).drop_last() =~= a + b2);
        assert((a + b).last() == b.last());
        let va = decimal_value(a);
        let p2 = pow10(b2.len());
        assert((va * p2 + decimal_value(b2)) * 10 + (b.last() - 48) == va * (10 * p2) + (
        decimal_value(b2) * 10 + (b.last() - 48))) by (nonlinear_arith);
    }
}

/// A fixed-size buffer of `N` values.
pub struct SimdAligned<T, const N: usize>(pub [T; N]);

impl<const N: usize> SimdAligned<u8, N> {
    /// The bytes of `src` followed by ASCII `0` up to `N` bytes.
    pub fn from_ascii(src: &[u8]) -> (r: Self)
        requires
            src@.len() <= N,
        ensures
            r.0@ == src@ + Seq::new((N - src@.len()) as nat, |_i: int| 48u8),
    {
        let mut out = [48u8; N];
        let mut i: usize = 0;
        while i < src.len()
            invariant
                i <= src@.len() <= N,
                out@.len() == N,
                forall|j: int| 0 <= j < i ==> out@[j] == src@[j],
                forall|j: int| i <= j < N ==> out@[j] == 48u8,
            decreases src@.len() - i,
        {
            out[i] = src[i];
            i = i + 1;
        }
        assert(out@ =~= src@ + Seq::new((N - src@.len()) as nat, |_i: int| 48u8));
        SimdAligned(out)
    }
}

} // verus!

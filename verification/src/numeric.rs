use vstd::prelude::*;
use vstd::arithmetic::div_mod::{
    lemma_fundamental_div_mod, lemma_mod_multiples_vanish, lemma_small_mod,
    lemma_add_mod_noop, lemma_mul_mod_noop_left, lemma_mod_twice, lemma_mod_bound,
};

verus! {

/// Modulus of 32-bit two's-complement arithmetic.
pub open spec fn modulus_32() -> int {
    0x1_0000_0000
}

/// Modulus of 64-bit two's-complement arithmetic.
pub open spec fn modulus_64() -> int {
    0x1_0000_0000_0000_0000
}

/// `x` reduced into `[-m/2, m/2)` modulo `m`: the value a signed two's-complement
/// integer of modulus `m` holds after wrapping arithmetic produced `x`.
pub open spec fn wrap_signed(x: int, m: int) -> int {
    let r = x % m;
    if r >= m / 2 {
        r - m
    } else {
        r
    }
}

/// The value of a run of ASCII digits read as a decimal number, where each
/// byte contributes `byte - b'0'` as its digit.
pub open spec fn decimal_value(digits: Seq<u8>) -> int
    decreases digits.len(),
{
    if digits.len() == 0 {
        0
    } else {
        decimal_value(digits.drop_last()) * 10 + (digits.last() - 48)
    }
}

/// Every byte is one of the ASCII digits `0`..`9`.
pub open spec fn all_ascii_digits(bytes: Seq<u8>) -> bool {
    forall|i: int| 0 <= i < bytes.len() ==> 48 <= #[trigger] bytes[i] <= 57
}

/// No byte lies below `b'0'`, so subtracting `b'0'` from a byte never underflows.
pub open spec fn no_byte_below_zero_digit(bytes: Seq<u8>) -> bool {
    forall|i: int| 0 <= i < bytes.len() ==> #[trigger] bytes[i] >= 48
}

pub proof fn lemma_wrap_mod(x: int, m: int)
    requires
        m >= 2,
        m % 2 == 0,
    ensures
        wrap_signed(x, m) % m == x % m,
        -(m / 2) <= wrap_signed(x, m) < m / 2,
{
    lemma_mod_bound(x, m);
    let r = x % m;
    lemma_mod_twice(x, m);
    if r >= m / 2 {
        lemma_mod_multiples_vanish(-1, r, m);
        assert(m * -1 + r == r - m) by (nonlinear_arith);
    }
}

pub proof fn lemma_wrap_small(z: int, m: int)
    requires
        m >= 2,
        m % 2 == 0,
        -(m / 2) <= z < m / 2,
    ensures
        wrap_signed(z, m) == z,
{
    if z >= 0 {
        lemma_small_mod(z as nat, m as nat);
    } else {
        lemma_mod_multiples_vanish(1, z, m);
        lemma_small_mod((z + m) as nat, m as nat);
        assert(m * 1 + z == z + m) by (nonlinear_arith);
    }
}

pub proof fn lemma_wrap_congruent(a: int, b: int, m: int)
    requires
        m >= 2,
        a % m == b % m,
    ensures
        wrap_signed(a, m) == wrap_signed(b, m),
{
}

/// Wrapping after each step of "times ten plus a digit" gives the same as
/// wrapping once at the end.
pub proof fn lemma_wrap_step(v: int, d: int, m: int)
    requires
        m >= 2,
        m % 2 == 0,
    ensures
        wrap_signed(wrap_signed(v, m) * 10 + d, m) == wrap_signed(v * 10 + d, m),
{
    let w = wrap_signed(v, m);
    lemma_wrap_mod(v, m);
    lemma_mul_mod_noop_left(w, 10, m);
    lemma_mul_mod_noop_left(v, 10, m);
    lemma_add_mod_noop(w * 10, d, m);
    lemma_add_mod_noop(v * 10, d, m);
    lemma_wrap_congruent(w * 10 + d, v * 10 + d, m);
}

pub proof fn lemma_i64_wrapping_mul(x: i64, y: i64)
    ensures
        vstd::wrapping::i64_specs::wrapping_mul(x, y) as int == wrap_signed(x * y, modulus_64()),
{
}

pub proof fn lemma_i32_wrapping_mul(x: i32, y: i32)
    ensures
        vstd::wrapping::i32_specs::wrapping_mul(x, y) as int == wrap_signed(x * y, modulus_32()),
{
}

pub proof fn lemma_i64_wrapping_add(x: i64, y: i64)
    ensures
        vstd::wrapping::i64_specs::wrapping_add(x, y) as int == wrap_signed(x + y, modulus_64()),
{
    let m = modulus_64();
    let s = x + y;
    let r = vstd::wrapping::i64_specs::wrapping_add(x, y) as int;
    if s > i64::MAX {
        lemma_mod_multiples_vanish(-1, s, m);
        assert(m * -1 + s == r);
    } else if s < i64::MIN {
        lemma_mod_multiples_vanish(1, s, m);
        assert(m * 1 + s == r);
    } else {
        assert(r == s);
    }
    lemma_wrap_small(r, m);
}

/// `0 - v` with wrapping, for `v` the wrapped value of `x`, is the wrapped
/// value of `-x`.
pub proof fn lemma_i64_wrapping_neg(v: i64, x: int)
    requires
        v as int == wrap_signed(x, modulus_64()),
    ensures
        vstd::wrapping::i64_specs::wrapping_sub(0, v) as int == wrap_signed(-x, modulus_64()),
{
    let m = modulus_64();
    let r = vstd::wrapping::i64_specs::wrapping_sub(0, v) as int;
    lemma_wrap_mod(x, m);
    lemma_mul_mod_noop_left(v as int, -1, m);
    lemma_mul_mod_noop_left(x, -1, m);
    assert((v as int) * -1 == -v);
    assert(x * -1 == -x);
    lemma_wrap_congruent(-(v as int), -x, m);
    if v == i64::MIN {
        lemma_mod_multiples_vanish(-1, -(v as int), m);
        assert(m * -1 + -(v as int) == r);
    } else {
        assert(r == -v);
    }
    lemma_wrap_small(r, m);
}

pub proof fn lemma_i32_wrapping_add(x: i32, y: i32)
    ensures
        vstd::wrapping::i32_specs::wrapping_add(x, y) as int == wrap_signed(x + y, modulus_32()),
{
    let m = modulus_32();
    let s = x + y;
    let r = vstd::wrapping::i32_specs::wrapping_add(x, y) as int;
    if s > i32::MAX {
        lemma_mod_multiples_vanish(-1, s, m);
        assert(m * -1 + s == r);
    } else if s < i32::MIN {
        lemma_mod_multiples_vanish(1, s, m);
        assert(m * 1 + s == r);
    } else {
        assert(r == s);
    }
    lemma_wrap_small(r, m);
}

pub proof fn lemma_decimal_value_nonneg(s: Seq<u8>)
    requires
        no_byte_below_zero_digit(s),
    ensures
        decimal_value(s) >= 0,
    decreases s.len(),
{
    if s.len() > 0 {
        let p = s.drop_last();
        assert(no_byte_below_zero_digit(p)) by {
            assert forall|k: int| 0 <= k < p.len() implies #[trigger] p[k] >= 48 by {
                assert(p[k] == s[k]);
            }
        }
        lemma_decimal_value_nonneg(p);
        assert(s[s.len() - 1] >= 48);
    }
}

/// The decimal digits of `n`, most significant first, without leading zeros
/// (`0` is written as one zero digit).
pub open spec fn decimal_digits(n: nat) -> Seq<u8>
    decreases n,
{
    if n < 10 {
        seq![(48 + n) as u8]
    } else {
        decimal_digits(n / 10).push((48 + n % 10) as u8)
    }
}

/// How a signed number is written in decimal: a `-` before the digits of its
/// magnitude when it is negative.
pub open spec fn signed_decimal_text(n: int) -> Seq<u8> {
    if n < 0 {
        seq![45u8] + decimal_digits((-n) as nat)
    } else {
        decimal_digits(n as nat)
    }
}

pub proof fn lemma_decimal_digits(n: nat)
    ensures
        all_ascii_digits(decimal_digits(n)),
        decimal_value(decimal_digits(n)) == n,
        decimal_digits(n).len() >= 1,
    decreases n,
{
    if n >= 10 {
        lemma_decimal_digits(n / 10);
        let d = decimal_digits(n);
        let p = decimal_digits(n / 10);
        assert(d.drop_last() =~= p);
        assert(d.last() == (48 + n % 10) as u8);
        assert(all_ascii_digits(d)) by {
            assert forall|i: int| 0 <= i < d.len() implies 48 <= #[trigger] d[i] <= 57 by {
                if i < p.len() {
                    assert(d[i] == p[i]);
                }
            }
        }
        lemma_fundamental_div_mod(n as int, 10);
        assert(decimal_value(d) == decimal_value(p) * 10 + (d.last() - 48));
    } else {
        let d = decimal_digits(n);
        assert(d.drop_last() =~= seq![]);
        assert(decimal_value(d) == decimal_value(d.drop_last()) * 10 + (d.last() - 48));
    }
}

/// Whether no byte lies below `b'0'`, so that the wrapping digit readers
/// accept `bytes`.
pub fn no_byte_below_zero(bytes: &[u8]) -> (r: bool)
    ensures
        r == no_byte_below_zero_digit(bytes@),
{
    let mut i: usize = 0;
    while i < bytes.len()
        invariant
            i <= bytes@.len(),
            forall|k: int| 0 <= k < i ==> bytes@[k] >= 48,
        decreases bytes@.len() - i,
    {
        if bytes[i] < 48 {
            return false;
        }
        i = i + 1;
    }
    true
}

} // verus!

use vstd::prelude::*;
use crate::ninja::Parallelism;

verus! {

/// The nibble the SWAR decoder takes from one byte: its low four bits, plus 9
/// when bit 6 is set (so `0`..`9` give 0..9 and `a`..`f`, `A`..`F` give 10..15).
pub open spec fn swar_nibble(b: u8) -> u64 {
    ((b & 0x0F) + 9 * ((b >> 6) & 1)) as u64
}

/// The SWAR decoding of `h`: each byte's nibble shifted in from the right,
/// four bits at a time, in a 64-bit register (bits shifted out are lost, and a
/// nibble above 15 is OR-ed over its neighbour).
pub open spec fn swar_value(h: Seq<u8>) -> u64
    decreases h.len(),
{
    if h.len() == 0 {
        0
    } else {
        ((swar_value(h.drop_last()) << 4u64) | swar_nibble(h.last())) as u64
    }
}

/// The nibble the SSE decoder takes from one byte: its low four bits, plus 9
/// when the byte, read as a signed 8-bit number, is above `b'9'`.
pub open spec fn sse_nibble(b: u8) -> u64 {
    ((b & 0x0F) + (if b < 0x80 && b > 0x39 { 9u8 } else { 0u8 })) as u64
}

/// One output byte of the SSE decoder: sixteen times the first nibble plus the
/// second, saturated at 255.
pub open spec fn sse_pair(hi: u8, lo: u8) -> u64 {
    let v = sse_nibble(hi) * 16 + sse_nibble(lo);
    if v > 255 {
        255
    } else {
        v as u64
    }
}

/// The SSE decoding of `h`: one saturated byte per pair of input bytes, most
/// significant first.
pub open spec fn sse_value(h: Seq<u8>) -> u64
    decreases h.len(),
{
    if h.len() < 2 {
        0
    } else {
        ((sse_value(h.take(h.len() - 2)) << 8u64) | sse_pair(h[h.len() - 2], h[h.len() - 1])) as u64
    }
}

/// `b` is one of `0`..`9`, `a`..`f`, `A`..`F`.
pub open spec fn is_hex_digit(b: u8) -> bool {
    (48 <= b <= 57) || (97 <= b <= 102) || (65 <= b <= 70)
}

/// The value of a hexadecimal digit.
pub open spec fn hex_digit_value(b: u8) -> int {
    if 48 <= b <= 57 {
        b - 48
    } else if 97 <= b <= 102 {
        b - 87
    } else {
        b - 55
    }
}

/// The number that a run of hexadecimal digits writes, most significant first.
pub open spec fn hex_value(h: Seq<u8>) -> int
    decreases h.len(),
{
    if h.len() == 0 {
        0
    } else {
        hex_value(h.drop_last()) * 16 + hex_digit_value(h.last())
    }
}

pub open spec fn all_hex_digits(h: Seq<u8>) -> bool {
    forall|i: int| 0 <= i < h.len() ==> is_hex_digit(#[trigger] h[i])
}

fn swar_nibble_of(b: u8) -> (r: u64)
    ensures
        r == swar_nibble(b),
        r <= 24,
{
    assert((b & 0x0F) <= 15 && ((b >> 6) & 1) <= 1) by (bit_vector);
    ((b & 0x0F) + 9 * ((b >> 6) & 1)) as u64
}

/// Decodes sixteen ASCII hexadecimal digits into a `u64` with the SWAR method,
/// most significant digit first.
#[allow(non_snake_case)]
pub fn single_hex_to_u64_SWAR(hex: &[u8; 16]) -> (r: u64)
    ensures
        r == swar_value(hex@),
{
    let mut acc: u64 = 0;
    let mut i: usize = 0;
    while i < 16
        invariant
            i <= 16,
            hex@.len() == 16,
            acc == swar_value(hex@.take(i as int)),
        decreases 16 - i,
    {
        let n = swar_nibble_of(hex[i]);
        assert(hex@.take(i + 1).drop_last() =~= hex@.take(i as int));
        acc = (acc << 4u64) | n;
        i = i + 1;
    }
    assert(hex@.take(16) =~= hex@);
    acc
}

/// Decodes each group of sixteen ASCII hexadecimal digits with the SWAR method
/// into the output slot of the same index.
#[allow(non_snake_case)]
pub fn multiple_hex_to_u64_SWAR(hex: &[[u8; 16]], output: &mut [u64])
    requires
        old(output)@.len() >= hex@.len(),
    ensures
        final(output)@.len() == old(output)@.len(),
        forall|i: int| 0 <= i < hex@.len() ==> final(output)@[i] == swar_value(#[trigger] hex@[i]@),
        forall|i: int| hex@.len() <= i < old(output)@.len() ==> final(output)@[i] == old(output)@[i],
{
    let mut i: usize = 0;
    while i < hex.len()
        invariant
            i <= hex@.len() <= output@.len(),
            output@.len() == old(output)@.len(),
            forall|j: int| 0 <= j < i ==> output@[j] == swar_value(#[trigger] hex@[j]@),
            forall|j: int| i <= j < old(output)@.len() ==> output@[j] == old(output)@[j],
        decreases hex@.len() - i,
    {
        output[i] = single_hex_to_u64_SWAR(&hex[i]);
        i = i + 1;
    }
}

fn sse_pair_of(hi: u8, lo: u8) -> (r: u64)
    ensures
        r == sse_pair(hi, lo),
        r <= 255,
{
    assert((hi & 0x0F) <= 15 && (lo & 0x0F) <= 15) by (bit_vector);
    let nh: u64 = ((hi & 0x0F) + (if hi < 0x80 && hi > 0x39 { 9u8 } else { 0u8 })) as u64;
    let nl: u64 = ((lo & 0x0F) + (if lo < 0x80 && lo > 0x39 { 9u8 } else { 0u8 })) as u64;
    let v = nh * 16 + nl;
    if v > 255 {
        255
    } else {
        v
    }
}

/// Decodes sixteen ASCII hexadecimal digits into a `u64` the way the SSE
/// decoder does: each pair of bytes gives one byte of the result, most
/// significant first.
pub fn single_hex_to_u64_sse(input: &[u8; 16]) -> (r: u64)
    ensures
        r == sse_value(input@),
{
    let mut acc: u64 = 0;
    let mut i: usize = 0;
    while i < 8
        invariant
            i <= 8,
            input@.len() == 16,
            acc == sse_value(input@.take(2 * i as int)),
        decreases 8 - i,
    {
        let v = sse_pair_of(input[2 * i], input[2 * i + 1]);
        let ghost t = input@.take(2 * i + 2);
        assert(t.take(t.len() - 2) =~= input@.take(2 * i as int));
        acc = (acc << 8u64) | v;
        i = i + 1;
    }
    assert(input@.take(16) =~= input@);
    acc
}

/// Decodes each group of sixteen ASCII hexadecimal digits the way the SSE
/// decoder does into the output slot of the same index.
pub fn multiple_hex_to_u64_sse(input: &[[u8; 16]], output: &mut [u64])
    requires
        old(output)@.len() >= input@.len(),
    ensures
        final(output)@.len() == old(output)@.len(),
        forall|i: int| 0 <= i < input@.len() ==> final(output)@[i] == sse_value(#[trigger] input@[i]@),
        forall|i: int| input@.len() <= i < old(output)@.len() ==> final(output)@[i] == old(output)@[i],
{
    let mut i: usize = 0;
    while i < input.len()
        invariant
            i <= input@.len() <= output@.len(),
            output@.len() == old(output)@.len(),
            forall|j: int| 0 <= j < i ==> output@[j] == sse_value(#[trigger] input@[j]@),
            forall|j: int| i <= j < old(output)@.len() ==> output@[j] == old(output)@[j],
        decreases input@.len() - i,
    {
        output[i] = single_hex_to_u64_sse(&input[i]);
        i = i + 1;
    }
}

/// What the fast single decoder returns: the SSE decoding where the processor
/// offers SSE3, the SWAR decoding elsewhere.
pub open spec fn fast_hex_value(hex: Seq<u8>, sse3: bool) -> u64 {
    if sse3 {
        sse_value(hex)
    } else {
        swar_value(hex)
    }
}

/// Decodes sixteen ASCII hexadecimal digits into a `u64` with the decoder that
/// the processor supports (`sse3` tells whether it offers SSE3).
#[allow(non_snake_case)]
pub fn ninja_rs__build_log__parse__fast_hex_single_to_u64(hex: &[u8; 16], sse3: bool) -> (r: u64)
    ensures
        r == fast_hex_value(hex@, sse3),
{
    if sse3 {
        single_hex_to_u64_sse(hex)
    } else {
        single_hex_to_u64_SWAR(hex)
    }
}

/// Decodes each group of sixteen ASCII hexadecimal digits into the output slot
/// of the same index, with the decoder that the processor supports.
#[allow(non_snake_case)]
pub fn ninja_rs__build_log__parse__fast_hex_multiple_to_u64(
    input: &[[u8; 16]],
    output: &mut [u64],
    sse3: bool,
)
    requires
        old(output)@.len() >= input@.len(),
    ensures
        final(output)@.len() == old(output)@.len(),
        forall|i: int|
            0 <= i < input@.len() ==> final(output)@[i] == fast_hex_value(#[trigger] input@[i]@, sse3),
        forall|i: int| input@.len() <= i < old(output)@.len() ==> final(output)@[i] == old(output)@[i],
{
    if sse3 {
        multiple_hex_to_u64_sse(input, output);
    } else {
        multiple_hex_to_u64_SWAR(input, output);
    }
}

// ---------------------------------------------------------------------------
// Laws.
// ---------------------------------------------------------------------------

pub open spec fn pow16(n: nat) -> int
    decreases n,
{
    if n == 0 {
        1
    } else {
        16 * pow16((n - 1) as nat)
    }
}

proof fn lemma_hex_value_bound(h: Seq<u8>)
    requires
        all_hex_digits(h),
    ensures
        0 <= hex_value(h) < pow16(h.len()),
    decreases h.len(),
{
    if h.len() > 0 {
        let p = h.drop_last();
        assert(all_hex_digits(p)) by {
            assert forall|i: int| 0 <= i < p.len() implies is_hex_digit(#[trigger] p[i]) by {
                assert(p[i] == h[i]);
            }
        }
        lemma_hex_value_bound(p);
        assert(is_hex_digit(h[h.len() - 1]));
    }
}

proof fn lemma_pow16_monotone(a: nat, b: nat)
    requires
        a <= b,
    ensures
        pow16(a) <= pow16(b),
    decreases b,
{
    if a < b {
        lemma_pow16_monotone(a, (b - 1) as nat);
        lemma_pow16_positive((b - 1) as nat);
    }
}

proof fn lemma_pow16_positive(a: nat)
    ensures
        pow16(a) >= 1,
    decreases a,
{
    if a > 0 {
        lemma_pow16_positive((a - 1) as nat);
    }
}

proof fn lemma_pow16_15()
    ensures
        pow16(15) == 0x1000_0000_0000_0000,
{
    reveal_with_fuel(pow16, 16);
}

proof fn lemma_pow16_14()
    ensures
        pow16(14) == 0x0100_0000_0000_0000,
{
    reveal_with_fuel(pow16, 15);
}

proof fn lemma_swar_nibble_of_digit(b: u8)
    requires
        is_hex_digit(b),
    ensures
        swar_nibble(b) == hex_digit_value(b),
{
    assert(48 <= b <= 57 ==> (b & 0x0F) == b - 48 && ((b >> 6) & 1) == 0) by (bit_vector);
    assert(97 <= b <= 102 ==> (b & 0x0F) == b - 96 && ((b >> 6) & 1) == 1) by (bit_vector);
    assert(65 <= b <= 70 ==> (b & 0x0F) == b - 64 && ((b >> 6) & 1) == 1) by (bit_vector);
}

proof fn lemma_sse_nibble_of_digit(b: u8)
    requires
        is_hex_digit(b),
    ensures
        sse_nibble(b) == hex_digit_value(b),
{
    assert(48 <= b <= 57 ==> (b & 0x0F) == b - 48) by (bit_vector);
    assert(97 <= b <= 102 ==> (b & 0x0F) == b - 96) by (bit_vector);
    assert(65 <= b <= 70 ==> (b & 0x0F) == b - 64) by (bit_vector);
}

proof fn lemma_swar_value_of_digits(h: Seq<u8>)
    requires
        all_hex_digits(h),
        h.len() <= 16,
    ensures
        swar_value(h) as int == hex_value(h),
    decreases h.len(),
{
    if h.len() > 0 {
        let p = h.drop_last();
        assert(all_hex_digits(p)) by {
            assert forall|i: int| 0 <= i < p.len() implies is_hex_digit(#[trigger] p[i]) by {
                assert(p[i] == h[i]);
            }
        }
        lemma_swar_value_of_digits(p);
        lemma_hex_value_bound(p);
        lemma_pow16_monotone(p.len(), 15);
        lemma_pow16_15();
        assert(is_hex_digit(h[h.len() - 1]));
        lemma_swar_nibble_of_digit(h.last());
        let x = swar_value(p);
        let n = swar_nibble(h.last());
        assert(x < 0x1000_0000_0000_0000u64 && n < 16 ==> ((x << 4u64) | n) == x * 16 + n)
            by (bit_vector);
    }
}

proof fn lemma_sse_value_of_digits(h: Seq<u8>)
    requires
        all_hex_digits(h),
        h.len() <= 16,
        h.len() % 2 == 0,
    ensures
        sse_value(h) as int == hex_value(h),
    decreases h.len(),
{
    if h.len() >= 2 {
        let p = h.take(h.len() - 2);
        assert(all_hex_digits(p)) by {
            assert forall|i: int| 0 <= i < p.len() implies is_hex_digit(#[trigger] p[i]) by {
                assert(p[i] == h[i]);
            }
        }
        lemma_sse_value_of_digits(p);
        lemma_hex_value_bound(p);
        lemma_pow16_monotone(p.len(), 14);
        lemma_pow16_14();
        let a = h[h.len() - 2];
        let b = h[h.len() - 1];
        assert(is_hex_digit(a));
        assert(is_hex_digit(b));
        lemma_sse_nibble_of_digit(a);
        lemma_sse_nibble_of_digit(b);
        assert(h.drop_last().drop_last() =~= p);
        assert(h.drop_last().last() == a);
        let x = sse_value(p);
        let v = sse_pair(a, b);
        assert(v == hex_digit_value(a) * 16 + hex_digit_value(b));
        assert(x < 0x0100_0000_0000_0000u64 && v < 256 ==> ((x << 8u64) | v) == x * 256 + v)
            by (bit_vector);
        assert(hex_value(h) == hex_value(h.drop_last()) * 16 + hex_digit_value(b));
        assert(hex_value(h.drop_last()) == hex_value(p) * 16 + hex_digit_value(a));
        assert(sse_value(h) == ((x << 8u64) | v) as u64);
    } else {
        assert(h.len() == 0);
    }
}

/// On sixteen hexadecimal digits (either case), both decoders give the number
/// that the digits write, most significant first, so the fast decoder returns
/// the same value whichever one the processor selects.
pub proof fn law_hex_decoders_agree_on_digits(hex: Seq<u8>)
    requires
        hex.len() == 16,
        all_hex_digits(hex),
    ensures
        swar_value(hex) as int == hex_value(hex),
        sse_value(hex) as int == hex_value(hex),
        fast_hex_value(hex, true) == fast_hex_value(hex, false),
{
    lemma_swar_value_of_digits(hex);
    lemma_sse_value_of_digits(hex);
}

// ---------------------------------------------------------------------------
// Splitting the work of the parallel decoder.
// ---------------------------------------------------------------------------

/// How many workers the parallel decoder splits its input among: the
/// parallelism the machine reports, else the one the caller asked for, else
/// the default job count.
pub open spec fn hex_parallel_jobs(available: Option<usize>, requested: Option<usize>) -> usize {
    match available {
        Some(n) => n,
        None => match requested {
            Some(n) => n,
            None => Parallelism::DEFAULT_JOBS_COUNT,
        },
    }
}

/// The size of the equal chunks the parallel decoder hands to its workers:
/// the input length divided by the worker count; what is left over is decoded
/// apart. `None` when there are no workers, or fewer entries than workers, since
/// the chunks would then be empty, which the decoder does not accept.
pub fn hex_parallel_chunk_size(input_len: usize, available: Option<usize>, requested: Option<usize>) -> (r: Option<usize>)
    ensures
        r == (if 0 < hex_parallel_jobs(available, requested) <= input_len {
            Some((input_len / hex_parallel_jobs(available, requested)) as usize)
        } else {
            None::<usize>
        }),
        r matches Some(c) ==> 0 < c <= input_len,
{
    let jobs = match available {
        Some(n) => n,
        None => match requested {
            Some(n) => n,
            None => Parallelism::DEFAULT_JOBS_COUNT,
        },
    };
    if jobs == 0 || jobs > input_len {
        return None;
    }
    proof {
        vstd::arithmetic::div_mod::lemma_div_is_ordered(jobs as int, input_len as int, jobs as int);
        vstd::arithmetic::div_mod::lemma_div_basics(jobs as int);
        vstd::arithmetic::div_mod::lemma_div_is_ordered_by_denominator(input_len as int, 1, jobs as int);
        vstd::arithmetic::div_mod::lemma_div_basics(input_len as int);
    }
    Some(input_len / jobs)
}

} // verus!

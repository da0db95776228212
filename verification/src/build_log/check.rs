use vstd::prelude::*;
use crate::numeric::no_byte_below_zero_digit;
use super::v7::{
    avx2_delims, delims_in, field_start, is_log_delim, lemma_delims_in_range, lemma_delims_in_split,
    lemma_sse_first_match, log_body, log_field, numeric_fields_readable, sse_delims, sse_first_match,
    strip_log_header,
};
use super::LogV7Parser;

verus! {

/// `v` holds the positions `d`.
pub open spec fn holds_positions(v: Seq<usize>, d: Seq<int>) -> bool {
    &&& v.len() == d.len()
    &&& forall|k: int| 0 <= k < v.len() ==> #[trigger] v[k] as int == d[k]
}

fn first_match_in_block(s: &[u8], o: usize) -> (r: usize)
    requires
        o + 16 <= s@.len(),
    ensures
        r as int == sse_first_match(s@, o as int, 0),
{
    let mut i: usize = 0;
    while i < 16
        invariant
            i <= 16,
            o + 16 <= s.len(),
            sse_first_match(s@, o as int, 0) == sse_first_match(s@, o as int, i as int),
        decreases 16 - i,
    {
        let x = s[o + i];
        if x == 0 {
            return 16;
        }
        if x == 9 || x == 10 {
            return i;
        }
        i = i + 1;
    }
    16
}

/// The positions of the delimiters that the 16-byte scan finds in `s`.
fn sse_delim_positions(s: &[u8]) -> (v: Vec<usize>)
    ensures
        holds_positions(v@, sse_delims(s@, 0)),
{
    let mut v: Vec<usize> = Vec::new();
    let mut offset: usize = 0;
    let ghost d = sse_delims(s@, 0);
    let ghost mut found: Seq<int> = seq![];
    while offset <= s.len() && s.len() - offset >= 16
        invariant
            offset <= s@.len(),
            d == sse_delims(s@, 0),
            d == found + sse_delims(s@, offset as int),
            holds_positions(v@, found),
        decreases s@.len() - offset,
    {
        let i = first_match_in_block(s, offset);
        proof {
            lemma_sse_first_match(s@, offset as int, 0);
        }
        if i < 16 {
            let found_at = offset + i;
            proof {
                assert(found.push(found_at as int) + sse_delims(s@, found_at + 1) =~= found + (seq![
                    found_at as int,
                ] + sse_delims(s@, found_at + 1)));
                found = found.push(found_at as int);
            }
            v.push(found_at);
            offset = found_at + 1;
        } else {
            offset = offset + 16;
        }
    }
    assert(sse_delims(s@, offset as int) =~= seq![]);
    assert(found + seq![] =~= found);
    v
}

/// The positions of the delimiters that the 32-byte scan finds in `s`.
fn avx2_delim_positions(s: &[u8]) -> (v: Vec<usize>)
    ensures
        holds_positions(v@, avx2_delims(s@, 0)),
{
    let mut v: Vec<usize> = Vec::new();
    let mut cursor: usize = 0;
    let ghost d = avx2_delims(s@, 0);
    let ghost mut found: Seq<int> = seq![];
    while cursor <= s.len() && s.len() - cursor >= 32
        invariant
            cursor <= s@.len(),
            d == avx2_delims(s@, 0),
            d == found + avx2_delims(s@, cursor as int),
            holds_positions(v@, found),
        decreases s@.len() - cursor,
    {
        let base = cursor;
        let ghost before = found;
        let ghost ds = delims_in(s@, base as int, base + 32);
        let ghost rest = if ds.len() == 0 {
            avx2_delims(s@, base + 32)
        } else {
            avx2_delims(s@, ds.last() + 1)
        };
        proof {
            lemma_delims_in_range(s@, base as int, base + 32);
            assert(d =~= before + ds + rest);
        }
        let mut j: usize = 0;
        let mut last: usize = 0;
        let mut any = false;
        while j < 32
            invariant
                j <= 32,
                base + 32 <= s.len(),
                ds == delims_in(s@, base as int, base + 32),
                found == before + delims_in(s@, base as int, base + j),
                holds_positions(v@, found),
                any == (delims_in(s@, base as int, base + j).len() > 0),
                any ==> last == delims_in(s@, base as int, base + j).last(),
            decreases 32 - j,
        {
            let x = s[base + j];
            let ghost pre = delims_in(s@, base as int, base + j);
            proof {
                lemma_delims_in_split(s@, base as int, base + j, base + j + 1);
            }
            if x == 9 || x == 10 {
                proof {
                    assert(delims_in(s@, base as int, base + j + 1) =~= pre.push(base + j));
                    found = found.push(base + j);
                    assert(found =~= before + pre.push(base + j));
                }
                v.push(base + j);
                last = base + j;
                any = true;
            } else {
                assert(delims_in(s@, base as int, base + j + 1) =~= pre);
            }
            j = j + 1;
        }
        if any {
            cursor = last + 1;
        } else {
            cursor = cursor + 32;
        }
        proof {
            assert(found =~= before + ds);
            assert(d =~= found + avx2_delims(s@, cursor as int));
        }
    }
    assert(avx2_delims(s@, cursor as int) =~= seq![]);
    assert(found + seq![] =~= found);
    v
}

fn digits_readable(s: &[u8], lo: usize, hi: usize) -> (r: bool)
    requires
        lo <= hi <= s@.len(),
    ensures
        r == no_byte_below_zero_digit(s@.subrange(lo as int, hi as int)),
{
    let mut i = lo;
    while i < hi
        invariant
            lo <= i <= hi <= s@.len(),
            forall|m: int| lo <= m < i ==> s@[m] >= 48,
        decreases hi - i,
    {
        if s[i] < 48 {
            assert(s@.subrange(lo as int, hi as int)[i - lo] < 48);
            return false;
        }
        i = i + 1;
    }
    assert forall|m: int| 0 <= m < s@.subrange(lo as int, hi as int).len() implies #[trigger] s@.subrange(
        lo as int,
        hi as int,
    )[m] >= 48 by {
        assert(s@.subrange(lo as int, hi as int)[m] == s@[lo + m]);
    }
    true
}

/// Whether the numeric fields that the delimiters `v` mark out in `s` hold no
/// byte below `b'0'`.
fn fields_readable_at(s: &[u8], v: &Vec<usize>, Ghost(d): Ghost<Seq<int>>) -> (r: bool)
    requires
        holds_positions(v@, d),
        placed(d, 0, s@.len() as int),
    ensures
        r == numeric_fields_readable(s@, d),
{
    let mut k: usize = 0;
    let mut start: usize = 0;
    while k < v.len()
        invariant
            k <= v@.len(),
            holds_positions(v@, d),
            placed(d, 0, s@.len() as int),
            start as int == field_start(d, k as int),
            forall|m: int|
                0 <= m < k && m % 5 < 3 ==> no_byte_below_zero_digit(#[trigger] log_field(s@, d, m)),
        decreases v@.len() - k,
    {
        let end = v[k];
        assert(v@[k as int] as int == d[k as int]);
        proof {
            lemma_placed_at(d, 0, s@.len() as int, k as int);
        }
        let len = s.len();
        assert(end < len);
        if k % 5 < 3 {
            if !digits_readable(s, start, end) {
                assert(!no_byte_below_zero_digit(log_field(s@, d, k as int)));
                return false;
            }
        }
        start = end + 1;
        k = k + 1;
    }
    true
}

/// Whether every numeric field (the times and the mtime of each record) that
/// the chosen scan of a version 7 log marks out holds no byte below `b'0'`, so
/// that the scan can read it without underflow; the 64-byte scan reads no
/// numbers.
pub fn log_v7_fields_readable(input: &[u8], parser: LogV7Parser) -> (r: bool)
    ensures
        r == match parser {
            LogV7Parser::Sse42 => numeric_fields_readable(
                log_body(input@),
                sse_delims(log_body(input@), 0),
            ),
            LogV7Parser::Avx2 => numeric_fields_readable(
                log_body(input@),
                avx2_delims(log_body(input@), 0),
            ),
            LogV7Parser::Avx512 => true,
        },
{
    let s = strip_log_header(input);
    match parser {
        LogV7Parser::Sse42 => {
            let v = sse_delim_positions(s);
            proof {
                lemma_sse_delims_placed(s@, 0);
                assert(placed(sse_delims(s@, 0), 0, s@.len() as int));
            }
            fields_readable_at(s, &v, Ghost(sse_delims(s@, 0)))
        },
        LogV7Parser::Avx2 => {
            let v = avx2_delim_positions(s);
            proof {
                lemma_avx2_delims_placed(s@, 0);
                assert(placed(avx2_delims(s@, 0), 0, s@.len() as int));
            }
            fields_readable_at(s, &v, Ghost(avx2_delims(s@, 0)))
        },
        LogV7Parser::Avx512 => true,
    }
}

/// Delimiter positions that are all at least `lo` and below `hi`, each after
/// the start of its field.
#[verifier::opaque]
pub open spec fn placed(d: Seq<int>, lo: int, hi: int) -> bool {
    forall|k: int| 0 <= k < d.len() ==> lo <= #[trigger] d[k] < hi && field_start(d, k) <= d[k]
}

/// What `placed` says of position `k`.
proof fn lemma_placed_at(d: Seq<int>, lo: int, hi: int, k: int)
    requires
        placed(d, lo, hi),
        0 <= k < d.len(),
    ensures
        lo <= d[k] < hi,
        field_start(d, k) <= d[k],
{
    reveal(placed);
}

/// Placed positions after a position before them stay placed.
proof fn lemma_placed_prepend(p: int, rest: Seq<int>, lo: int, hi: int)
    requires
        0 <= lo <= p < hi,
        placed(rest, p + 1, hi),
    ensures
        placed(seq![p] + rest, lo, hi),
{
    reveal(placed);
    let all = seq![p] + rest;
    assert forall|k: int| 0 <= k < all.len() implies lo <= #[trigger] all[k] < hi && field_start(all, k)
        <= all[k] by {
        if k > 0 {
            assert(all[k] == rest[k - 1]);
            assert(p + 1 <= rest[k - 1] < hi);
            if k > 1 {
                assert(all[k - 1] == rest[k - 2]);
                assert(field_start(rest, k - 1) <= rest[k - 1]);
            }
        }
    }
}

/// The 16-byte scan's delimiters from `o` on are increasing, at least `o`, and
/// inside `s`.
proof fn lemma_sse_delims_placed(s: Seq<u8>, o: int)
    requires
        0 <= o,
    ensures
        placed(sse_delims(s, o), o, s.len() as int),
    decreases s.len() - o,
{
    if o + 16 <= s.len() {
        let i = sse_first_match(s, o, 0);
        lemma_sse_first_match(s, o, 0);
        if i < 16 {
            lemma_sse_delims_placed(s, o + i + 1);
            let rest = sse_delims(s, o + i + 1);
            assert(sse_delims(s, o) == seq![o + i] + rest);
            lemma_placed_prepend(o + i, rest, o, s.len() as int);
        } else {
            lemma_sse_delims_placed(s, o + 16);
            assert(sse_delims(s, o) == sse_delims(s, o + 16));
            reveal(placed);
        }
    } else {
        reveal(placed);
        assert(sse_delims(s, o) =~= seq![]);
    }
}

/// The 32-byte scan's delimiters from `c` on are increasing, at least `c`, and
/// inside `s`.
proof fn lemma_avx2_delims_placed(s: Seq<u8>, c: int)
    requires
        0 <= c,
    ensures
        placed(avx2_delims(s, c), c, s.len() as int),
    decreases s.len() - c,
{
    reveal(placed);
    if c + 32 <= s.len() {
        let ds = delims_in(s, c, c + 32);
        lemma_delims_in_range(s, c, c + 32);
        lemma_delims_in_increasing(s, c, c + 32);
        if ds.len() == 0 {
            lemma_avx2_delims_placed(s, c + 32);
            assert(avx2_delims(s, c) == avx2_delims(s, c + 32));
        } else {
            let rest = avx2_delims(s, ds.last() + 1);
            lemma_avx2_delims_placed(s, ds.last() + 1);
            let all = avx2_delims(s, c);
            assert(all == ds + rest);
            assert forall|k: int| 0 <= k < all.len() implies c <= #[trigger] all[k] < s.len()
                && field_start(all, k) <= all[k] by {
                if k < ds.len() {
                    assert(all[k] == ds[k]);
                    if k > 0 {
                        assert(all[k - 1] == ds[k - 1]);
                        assert(ds[k - 1] < ds[k]);
                    }
                } else {
                    assert(all[k] == rest[k - ds.len()]);
                    if k > ds.len() {
                        assert(all[k - 1] == rest[k - 1 - ds.len()]);
                        assert(field_start(rest, k - ds.len()) <= rest[k - ds.len()]);
                    } else {
                        assert(all[k - 1] == ds[ds.len() - 1]);
                    }
                }
            }
        }
    } else {
        assert(avx2_delims(s, c) =~= seq![]);
    }
}

/// The delimiters of a range come in increasing order.
proof fn lemma_delims_in_increasing(s: Seq<u8>, lo: int, hi: int)
    ensures
        forall|a: int, b: int|
            0 <= a < b < delims_in(s, lo, hi).len() ==> #[trigger] delims_in(s, lo, hi)[a] < #[trigger] delims_in(
                s,
                lo,
                hi,
            )[b],
    decreases hi - lo,
{
    if hi > lo {
        lemma_delims_in_increasing(s, lo, hi - 1);
        lemma_delims_in_range(s, lo, hi - 1);
        let p = delims_in(s, lo, hi - 1);
        let q: Seq<int> = if is_log_delim(s[hi - 1]) { seq![hi - 1] } else { seq![] };
        assert(delims_in(s, lo, hi) == p + q);
        assert forall|a: int, b: int| 0 <= a < b < delims_in(s, lo, hi).len() implies #[trigger] delims_in(
            s,
            lo,
            hi,
        )[a] < #[trigger] delims_in(s, lo, hi)[b] by {
            assert((p + q)[a] == p[a]);
            if b < p.len() {
                assert((p + q)[b] == p[b]);
            } else {
                assert((p + q)[b] == hi - 1);
            }
        }
    }
}

} // verus!

use vstd::prelude::*;
use crate::numeric::{decimal_value, modulus_32, modulus_64, no_byte_below_zero_digit, wrap_signed};
use super::{fast_atoi_i32, fast_atoi_i64};

verus! {

/// One record of a version 7 ninja log: the start and end times of a command,
/// the recorded modification time, the output path and the command hash, each
/// borrowed from the log text.
#[derive(Debug, Clone, Copy)]
pub struct LogEntyV7<'p, 'h> {
    pub start_time: i32,
    pub end_time: i32,
    pub mtime: i64,
    pub path: &'p [u8],
    pub command_hash: &'h [u8],
}

// ---------------------------------------------------------------------------
// The log text model.
// ---------------------------------------------------------------------------

/// `# ninja log v7\n`
pub open spec fn log_header() -> Seq<u8> {
    seq![35u8, 32, 110, 105, 110, 106, 97, 32, 108, 111, 103, 32, 118, 55, 10]
}

/// The log text without its header line, when it has one.
pub open spec fn log_body(b: Seq<u8>) -> Seq<u8> {
    if b.len() >= 15 && b.take(15) == log_header() {
        b.skip(15)
    } else {
        b
    }
}

/// Fields are ended by a tab or a newline.
pub open spec fn is_log_delim(x: u8) -> bool {
    x == 9 || x == 10
}

/// Where field `k` starts: at 0, or just after the delimiter that ended field `k - 1`.
pub open spec fn field_start(d: Seq<int>, k: int) -> int {
    if k == 0 {
        0
    } else {
        d[k - 1] + 1
    }
}

/// The text of field `k`, given the positions `d` of the delimiters that end the fields.
pub open spec fn log_field(s: Seq<u8>, d: Seq<int>, k: int) -> Seq<u8> {
    s.subrange(field_start(d, k), d[k])
}

/// The three numeric fields of every record (times and mtime) hold no byte
/// below `b'0'`, so reading them never underflows.
pub open spec fn numeric_fields_readable(s: Seq<u8>, d: Seq<int>) -> bool {
    forall|k: int|
        0 <= k < d.len() && k % 5 < 3 ==> no_byte_below_zero_digit(#[trigger] log_field(s, d, k))
}

/// Entry `e` is record `j`: fields `5j` to `5j + 4`, the numbers read with wrapping.
pub open spec fn entry_is_record(e: LogEntyV7, s: Seq<u8>, d: Seq<int>, j: int) -> bool {
    &&& e.start_time as int == wrap_signed(decimal_value(log_field(s, d, 5 * j)), modulus_32())
    &&& e.end_time as int == wrap_signed(decimal_value(log_field(s, d, 5 * j + 1)), modulus_32())
    &&& e.mtime as int == wrap_signed(decimal_value(log_field(s, d, 5 * j + 2)), modulus_64())
    &&& e.path@ == log_field(s, d, 5 * j + 3)
    &&& e.command_hash@ == log_field(s, d, 5 * j + 4)
}

/// The entries are the complete records, in order.
pub open spec fn entries_are_records(entries: Seq<LogEntyV7>, s: Seq<u8>, d: Seq<int>) -> bool {
    &&& entries.len() == d.len() / 5
    &&& forall|j: int| 0 <= j < entries.len() ==> entry_is_record(#[trigger] entries[j], s, d, j)
}

// ---------------------------------------------------------------------------
// The 16-byte scan: one delimiter per step, with the string-compare rule that
// a NUL byte ends the block.
// ---------------------------------------------------------------------------

/// The offset, within the 16 bytes of `s` at `o`, of the first delimiter at or
/// after `i` that the implicit-length string compare reports: a NUL byte ends
/// the scan; 16 when nothing is reported.
pub open spec fn sse_first_match(s: Seq<u8>, o: int, i: int) -> int
    decreases 16 - i,
{
    if i >= 16 || i < 0 {
        16
    } else if s[o + i] == 0 {
        16
    } else if is_log_delim(s[o + i]) {
        i
    } else {
        sse_first_match(s, o, i + 1)
    }
}

pub proof fn lemma_sse_first_match(s: Seq<u8>, o: int, i: int)
    requires
        0 <= i,
    ensures
        i <= sse_first_match(s, o, i) <= 16 || sse_first_match(s, o, i) == 16,
        0 <= sse_first_match(s, o, i) <= 16,
        sse_first_match(s, o, i) < 16 ==> is_log_delim(s[o + sse_first_match(s, o, i)]),
        sse_first_match(s, o, i) < 16 ==> i <= sse_first_match(s, o, i),
    decreases 16 - i,
{
    if i < 16 && s[o + i] != 0 && !is_log_delim(s[o + i]) {
        lemma_sse_first_match(s, o, i + 1);
    }
}

/// The delimiters that the 16-byte scan finds, from block offset `o` on.
pub open spec fn sse_delims(s: Seq<u8>, o: int) -> Seq<int>
    decreases s.len() - o,
{
    if o < 0 || o + 16 > s.len() {
        seq![]
    } else {
        let i = sse_first_match(s, o, 0);
        proof {
            lemma_sse_first_match(s, o, 0);
        }
        if i < 16 {
            seq![o + i] + sse_delims(s, o + i + 1)
        } else {
            sse_delims(s, o + 16)
        }
    }
}

// ---------------------------------------------------------------------------
// Executable pieces.
// ---------------------------------------------------------------------------

/// The log text without its header line, when it has one.
pub fn strip_log_header(b: &[u8]) -> (s: &[u8])
    ensures
        s@ == log_body(b@),
{
    let header: [u8; 15] = [35u8, 32, 110, 105, 110, 106, 97, 32, 108, 111, 103, 32, 118, 55, 10];
    assert(header@ =~= log_header());
    if b.len() < 15 {
        return b;
    }
    let mut i: usize = 0;
    while i < 15
        invariant
            i <= 15 <= b@.len(),
            header@ == log_header(),
            forall|j: int| 0 <= j < i ==> b@[j] == header@[j],
        decreases 15 - i,
    {
        if b[i] != header[i] {
            assert(b@.take(15)[i as int] != log_header()[i as int]);
            return b;
        }
        i = i + 1;
    }
    assert(b@.take(15) =~= log_header());
    &b[15..b.len()]
}

fn sse_block_match(s: &[u8], o: usize) -> (r: usize)
    requires
        o + 16 <= s@.len(),
    ensures
        r as int == sse_first_match(s@, o as int, 0),
{
    let mut i: usize = 0;
    while i < 16
        invariant
            i <= 16,
            o + 16 <= s.len(),
            sse_first_match(s@, o as int, 0) == sse_first_match(s@, o as int, i as int),
        decreases 16 - i,
    {
        let x = s[o + i];
        if x == 0 {
            return 16;
        }
        if x == 9 || x == 10 {
            return i;
        }
        i = i + 1;
    }
    16
}

/// The fields of the record being read so far.
struct RecordBuilder<'a> {
    field_index: usize,
    start_time: i32,
    end_time: i32,
    mtime: i64,
    path: &'a [u8],
}

/// After `n` fields of `s` (ended at the positions `d`) were taken: the complete
/// records are in `entries`, and the builder holds what it read of the next one.
spec fn builder_holds(b: RecordBuilder, entries: Seq<LogEntyV7>, s: Seq<u8>, d: Seq<int>, n: int) -> bool {
    &&& b.field_index == n % 5
    &&& entries.len() == n / 5
    &&& forall|j: int| 0 <= j < entries.len() ==> entry_is_record(#[trigger] entries[j], s, d, j)
    &&& b.field_index > 0 ==> b.start_time as int == wrap_signed(
        decimal_value(log_field(s, d, n - b.field_index)),
        modulus_32(),
    )
    &&& b.field_index > 1 ==> b.end_time as int == wrap_signed(
        decimal_value(log_field(s, d, n - b.field_index + 1)),
        modulus_32(),
    )
    &&& b.field_index > 2 ==> b.mtime as int == wrap_signed(
        decimal_value(log_field(s, d, n - b.field_index + 2)),
        modulus_64(),
    )
    &&& b.field_index > 3 ==> b.path@ == log_field(s, d, n - b.field_index + 3)
}

impl<'a> RecordBuilder<'a> {
    fn new(empty: &'a [u8]) -> (b: Self)
        ensures
            forall|s: Seq<u8>, d: Seq<int>| builder_holds(b, seq![], s, d, 0),
    {
        RecordBuilder { field_index: 0, start_time: 0, end_time: 0, mtime: 0, path: empty }
    }

    /// Takes field `n`: a number, the path, or the hash that completes a record.
    fn take_field(
        &mut self,
        entries: &mut Vec<LogEntyV7<'a, 'a>>,
        field: &'a [u8],
        Ghost(s): Ghost<Seq<u8>>,
        Ghost(d): Ghost<Seq<int>>,
        Ghost(n): Ghost<int>,
    )
        requires
            builder_holds(*old(self), old(entries)@, s, d, n),
            0 <= n < d.len(),
            field@ == log_field(s, d, n),
            numeric_fields_readable(s, d),
        ensures
            builder_holds(*final(self), final(entries)@, s, d, n + 1),
    {
        if self.field_index < 3 {
            assert(no_byte_below_zero_digit(log_field(s, d, n)));
        }
        if self.field_index == 0 {
            self.start_time = fast_atoi_i32(field);
            self.field_index = 1;
        } else if self.field_index == 1 {
            self.end_time = fast_atoi_i32(field);
            self.field_index = 2;
        } else if self.field_index == 2 {
            self.mtime = fast_atoi_i64(field);
            self.field_index = 3;
        } else if self.field_index == 3 {
            self.path = field;
            self.field_index = 4;
        } else {
            let e = LogEntyV7 {
                start_time: self.start_time,
                end_time: self.end_time,
                mtime: self.mtime,
                path: self.path,
                command_hash: field,
            };
            assert(entry_is_record(e, s, d, entries@.len() as int));
            entries.push(e);
            self.field_index = 0;
        }
    }
}

/// Fields ending at the positions `found` read the same whether the positions
/// are taken alone or as the start of `d`.
proof fn lemma_fields_of_prefix(d: Seq<int>, found: Seq<int>, rest: Seq<int>)
    requires
        d == found + rest,
    ensures
        forall|m: int| 0 <= m < found.len() ==> d[m] == #[trigger] found[m],
{
    assert forall|m: int| 0 <= m < found.len() implies d[m] == #[trigger] found[m] by {
        assert((found + rest)[m] == found[m]);
    }
}

/// The records that the 16-byte scan of a version 7 log decodes: the header
/// line is skipped, fields end at a tab or a newline, and every five fields
/// make one record.
pub fn sse_4_2_log_entries<'a>(input: &'a [u8]) -> (entries: Vec<LogEntyV7<'a, 'a>>)
    requires
        numeric_fields_readable(log_body(input@), sse_delims(log_body(input@), 0)),
    ensures
        entries_are_records(entries@, log_body(input@), sse_delims(log_body(input@), 0)),
{
    let s = strip_log_header(input);
    let ghost d = sse_delims(s@, 0);
    let mut entries: Vec<LogEntyV7<'a, 'a>> = Vec::new();
    let mut builder = RecordBuilder::new(&s[0..0]);
    let mut cursor: usize = 0;
    let mut offset: usize = 0;
    let ghost mut found: Seq<int> = seq![];
    while offset <= s.len() && s.len() - offset >= 16
        invariant
            cursor <= offset <= s@.len(),
            d == sse_delims(s@, 0),
            numeric_fields_readable(s@, d),
            d == found + sse_delims(s@, offset as int),
            cursor == field_start(found, found.len() as int),
            found.len() > 0 ==> found.last() < offset,
            builder_holds(builder, entries@, s@, d, found.len() as int),
        decreases s@.len() - offset,
    {
        let i = sse_block_match(s, offset);
        proof {
            lemma_sse_first_match(s@, offset as int, 0);
        }
        if i < 16 {
            let found_at = offset + i;
            let ghost k = found.len() as int;
            proof {
                assert(sse_delims(s@, offset as int) == seq![found_at as int] + sse_delims(
                    s@,
                    found_at + 1,
                ));
                assert(found.push(found_at as int) + sse_delims(s@, found_at + 1) =~= found + (seq![
                    found_at as int,
                ] + sse_delims(s@, found_at + 1)));
                found = found.push(found_at as int);
                lemma_fields_of_prefix(d, found, sse_delims(s@, found_at + 1));
                assert(field_start(d, k) == cursor);
            }
            let field = &s[cursor..found_at];
            builder.take_field(&mut entries, field, Ghost(s@), Ghost(d), Ghost(k));
            cursor = found_at + 1;
            offset = cursor;
        } else {
            offset = offset + 16;
        }
    }
    assert(sse_delims(s@, offset as int) =~= seq![]);
    assert(found + seq![] =~= found);
    entries
}

/// Decodes a version 7 log with the 16-byte scan. The records are read and
/// dropped; nothing fails once the numeric fields can be read.
pub fn parse_ninja_log_v7_text_using_sse_4_2(s: &[u8]) -> (r: Result<(), String>)
    requires
        numeric_fields_readable(log_body(s@), sse_delims(log_body(s@), 0)),
    ensures
        r is Ok,
{
    let _entries = sse_4_2_log_entries(s);
    Ok(())
}

// ---------------------------------------------------------------------------
// The 32-byte scan: every delimiter of a block at once, the next block starting
// after the last delimiter found.
// ---------------------------------------------------------------------------

/// The delimiter positions in `s[lo..hi]`, in order.
pub open spec fn delims_in(s: Seq<u8>, lo: int, hi: int) -> Seq<int>
    decreases hi - lo,
{
    if hi <= lo {
        seq![]
    } else {
        delims_in(s, lo, hi - 1) + (if is_log_delim(s[hi - 1]) {
            seq![hi - 1]
        } else {
            seq![]
        })
    }
}

pub proof fn lemma_delims_in_range(s: Seq<u8>, lo: int, hi: int)
    ensures
        forall|k: int| 0 <= k < delims_in(s, lo, hi).len() ==> lo <= #[trigger] delims_in(s, lo, hi)[k] < hi,
        forall|k: int|
            0 <= k < delims_in(s, lo, hi).len() ==> is_log_delim(s[#[trigger] delims_in(s, lo, hi)[k]]),
    decreases hi - lo,
{
    if hi > lo {
        lemma_delims_in_range(s, lo, hi - 1);
        let a = delims_in(s, lo, hi - 1);
        let b = if is_log_delim(s[hi - 1]) { seq![hi - 1] } else { seq![] };
        assert forall|k: int| 0 <= k < delims_in(s, lo, hi).len() implies lo <= #[trigger] delims_in(s, lo, hi)[k] < hi
            && is_log_delim(s[delims_in(s, lo, hi)[k]]) by {
            if k < a.len() {
                assert((a + b)[k] == a[k]);
            } else {
                assert((a + b)[k] == b[k - a.len()]);
            }
        }
    }
}

pub proof fn lemma_delims_in_split(s: Seq<u8>, lo: int, m: int, hi: int)
    requires
        lo <= m <= hi,
    ensures
        delims_in(s, lo, hi) == delims_in(s, lo, m) + delims_in(s, m, hi),
    decreases hi - m,
{
    if m < hi {
        lemma_delims_in_split(s, lo, m, hi - 1);
        assert(delims_in(s, lo, hi) =~= delims_in(s, lo, m) + delims_in(s, m, hi));
    } else {
        assert(delims_in(s, lo, m) + seq![] =~= delims_in(s, lo, m));
    }
}

/// The delimiters that the 32-byte scan finds, from block start `c` on.
pub open spec fn avx2_delims(s: Seq<u8>, c: int) -> Seq<int>
    decreases s.len() - c,
{
    if c < 0 || c + 32 > s.len() {
        seq![]
    } else {
        let ds = delims_in(s, c, c + 32);
        proof {
            lemma_delims_in_range(s, c, c + 32);
        }
        if ds.len() == 0 {
            avx2_delims(s, c + 32)
        } else {
            ds + avx2_delims(s, ds.last() + 1)
        }
    }
}

/// Where the 32-byte scan stops: the first block start from which fewer than
/// 32 bytes remain.
pub open spec fn avx2_end(s: Seq<u8>, c: int) -> int
    decreases s.len() - c,
{
    if c < 0 || c + 32 > s.len() {
        c
    } else {
        let ds = delims_in(s, c, c + 32);
        proof {
            lemma_delims_in_range(s, c, c + 32);
        }
        if ds.len() == 0 {
            avx2_end(s, c + 32)
        } else {
            avx2_end(s, ds.last() + 1)
        }
    }
}

/// What the 32-byte scan leaves: the complete records, where the scan stopped,
/// where the unfinished field starts, and how many fields of the unfinished
/// record were read.
pub struct Avx2LogScan<'a> {
    pub entries: Vec<LogEntyV7<'a, 'a>>,
    pub cursor: usize,
    pub field_start: usize,
    pub field_index: usize,
}

/// The records that the 32-byte scan of a version 7 log decodes, and where it
/// stopped: the header line is skipped, each 32-byte block is searched for tabs
/// and newlines, every five fields make one record, and the bytes after the
/// last whole block are not searched.
pub fn avx2_log_scan<'a>(input: &'a [u8]) -> (r: Avx2LogScan<'a>)
    requires
        numeric_fields_readable(log_body(input@), avx2_delims(log_body(input@), 0)),
    ensures
        entries_are_records(r.entries@, log_body(input@), avx2_delims(log_body(input@), 0)),
        r.cursor == avx2_end(log_body(input@), 0),
        r.field_start == field_start(
            avx2_delims(log_body(input@), 0),
            avx2_delims(log_body(input@), 0).len() as int,
        ),
        r.field_index == avx2_delims(log_body(input@), 0).len() % 5,
        r.field_start <= r.cursor <= log_body(input@).len(),
{
    let s = strip_log_header(input);
    let ghost d = avx2_delims(s@, 0);
    let mut entries: Vec<LogEntyV7<'a, 'a>> = Vec::new();
    let mut builder = RecordBuilder::new(&s[0..0]);
    let mut cursor: usize = 0;
    let mut field_start_at: usize = 0;
    let ghost mut found: Seq<int> = seq![];
    while cursor <= s.len() && s.len() - cursor >= 32
        invariant
            field_start_at <= cursor <= s@.len(),
            d == avx2_delims(s@, 0),
            numeric_fields_readable(s@, d),
            d == found + avx2_delims(s@, cursor as int),
            avx2_end(s@, 0) == avx2_end(s@, cursor as int),
            field_start_at == field_start(found, found.len() as int),
            builder_holds(builder, entries@, s@, d, found.len() as int),
        decreases s@.len() - cursor,
    {
        let base = cursor;
        let ghost before = found;
        let ghost ds = delims_in(s@, base as int, base + 32);
        let ghost rest = if ds.len() == 0 {
            avx2_delims(s@, base + 32)
        } else {
            avx2_delims(s@, ds.last() + 1)
        };
        proof {
            lemma_delims_in_range(s@, base as int, base + 32);
            assert(d =~= before + ds + rest);
        }
        let mut j: usize = 0;
        let mut any = false;
        while j < 32
            invariant
                j <= 32,
                base + 32 <= s.len(),
                field_start_at <= base + j,
                d == avx2_delims(s@, 0),
                numeric_fields_readable(s@, d),
                ds == delims_in(s@, base as int, base + 32),
                d == before + ds + rest,
                found == before + delims_in(s@, base as int, base + j),
                any == (delims_in(s@, base as int, base + j).len() > 0),
                any ==> found.last() == delims_in(s@, base as int, base + j).last(),
                field_start_at == field_start(found, found.len() as int),
                builder_holds(builder, entries@, s@, d, found.len() as int),
            decreases 32 - j,
        {
            let x = s[base + j];
            let ghost pre = delims_in(s@, base as int, base + j);
            proof {
                lemma_delims_in_split(s@, base as int, base + j + 1, base + 32);
                lemma_delims_in_split(s@, base as int, base + j, base + j + 1);
            }
            if x == 9 || x == 10 {
                let found_at = base + j;
                let ghost k = found.len() as int;
                proof {
                    assert(delims_in(s@, base as int, base + j + 1) =~= pre.push(found_at as int));
                    assert(d =~= (before + pre.push(found_at as int)) + (delims_in(
                        s@,
                        base + j + 1,
                        base + 32,
                    ) + rest));
                    found = found.push(found_at as int);
                    assert(found =~= before + pre.push(found_at as int));
                    lemma_fields_of_prefix(
                        d,
                        found,
                        delims_in(s@, base + j + 1, base + 32) + rest,
                    );
                    assert(field_start(d, k) == field_start_at);
                }
                let field = &s[field_start_at..found_at];
                builder.take_field(&mut entries, field, Ghost(s@), Ghost(d), Ghost(k));
                field_start_at = found_at + 1;
                any = true;
            } else {
                assert(delims_in(s@, base as int, base + j + 1) =~= pre);
            }
            j = j + 1;
        }
        if any {
            cursor = field_start_at;
        } else {
            cursor = cursor + 32;
        }
        proof {
            assert(found =~= before + ds);
            assert(d =~= found + avx2_delims(s@, cursor as int));
        }
    }
    assert(avx2_delims(s@, cursor as int) =~= seq![]);
    assert(found + seq![] =~= found);
    Avx2LogScan { entries, cursor, field_start: field_start_at, field_index: builder.field_index }
}

// ---------------------------------------------------------------------------
// The 64-byte scan: the first delimiter of a block ends a field; a block
// without one moves the field start 64 bytes on.
// ---------------------------------------------------------------------------

/// The fields (start, end) that the 64-byte scan reports, from block start `c` on.
pub open spec fn avx512_fields(s: Seq<u8>, c: int) -> Seq<(int, int)>
    decreases s.len() - c,
{
    if c < 0 || c + 64 > s.len() {
        seq![]
    } else {
        let ds = delims_in(s, c, c + 64);
        proof {
            lemma_delims_in_range(s, c, c + 64);
        }
        if ds.len() == 0 {
            avx512_fields(s, c + 64)
        } else {
            seq![(c, ds[0])] + avx512_fields(s, ds[0] + 1)
        }
    }
}

/// The offset of the first delimiter in `s[c..c + 64]`, or 64.
fn first_delim_in_block(s: &[u8], c: usize) -> (j: usize)
    requires
        c + 64 <= s@.len(),
    ensures
        j <= 64,
        j == 64 ==> delims_in(s@, c as int, c + 64).len() == 0,
        j < 64 ==> delims_in(s@, c as int, c + 64).len() > 0 && delims_in(s@, c as int, c + 64)[0]
            == c + j,
{
    let mut j: usize = 0;
    while j < 64
        invariant
            j <= 64,
            c + 64 <= s.len(),
            delims_in(s@, c as int, c + j).len() == 0,
        decreases 64 - j,
    {
        let x = s[c + j];
        proof {
            lemma_delims_in_split(s@, c as int, c + j, c + j + 1);
            lemma_delims_in_split(s@, c as int, c + j + 1, c + 64);
        }
        if x == 9 || x == 10 {
            assert(delims_in(s@, c + j, c + j + 1) =~= seq![c + j]);
            assert(delims_in(s@, c as int, c + j + 1) =~= seq![c + j]);
            return j;
        }
        assert(delims_in(s@, c + j, c + j + 1) =~= seq![]);
        j = j + 1;
    }
    j
}

/// The fields that the 64-byte scan of a version 7 log reports, in order: the
/// header line is skipped, and a field runs from the current position to the
/// first tab or newline of the 64-byte block there.
pub fn avx512_log_fields<'a>(input: &'a [u8]) -> (fields: Vec<&'a [u8]>)
    ensures
        fields@.len() == avx512_fields(log_body(input@), 0).len(),
        forall|i: int|
            0 <= i < fields@.len() ==> (#[trigger] fields@[i])@ == log_body(input@).subrange(
                avx512_fields(log_body(input@), 0)[i].0,
                avx512_fields(log_body(input@), 0)[i].1,
            ),
{
    let s = strip_log_header(input);
    let ghost f = avx512_fields(s@, 0);
    let mut fields: Vec<&'a [u8]> = Vec::new();
    let mut cursor: usize = 0;
    while cursor <= s.len() && s.len() - cursor >= 64
        invariant
            cursor <= s@.len(),
            f == avx512_fields(s@, 0),
            f.len() == fields@.len() + avx512_fields(s@, cursor as int).len(),
            forall|i: int| 0 <= i < fields@.len() ==> f[i] == #[trigger] (f.take(fields@.len() as int))[i],
            forall|i: int|
                0 <= i < fields@.len() ==> (#[trigger] fields@[i])@ == s@.subrange(f[i].0, f[i].1),
            f == f.take(fields@.len() as int) + avx512_fields(s@, cursor as int),
        decreases s@.len() - cursor,
    {
        let j = first_delim_in_block(s, cursor);
        proof {
            lemma_delims_in_range(s@, cursor as int, cursor + 64);
        }
        if j < 64 {
            let found_at = cursor + j;
            let ghost n = fields@.len() as int;
            proof {
                assert(avx512_fields(s@, cursor as int) == seq![(cursor as int, found_at as int)]
                    + avx512_fields(s@, found_at + 1));
                assert(f[n] == (cursor as int, found_at as int)) by {
                    assert((f.take(n) + avx512_fields(s@, cursor as int))[n] == (
                        cursor as int,
                        found_at as int,
                    ));
                }
                assert(f.take(n + 1) =~= f.take(n).push((cursor as int, found_at as int)));
                assert(f =~= f.take(n + 1) + avx512_fields(s@, found_at + 1));
            }
            fields.push(&s[cursor..found_at]);
            cursor = found_at + 1;
        } else {
            cursor = cursor + 64;
        }
    }
    assert(avx512_fields(s@, cursor as int) =~= seq![]);
    fields
}


// ---------------------------------------------------------------------------
// What the scans find: tabs and newlines, and nothing else.
// ---------------------------------------------------------------------------

/// The byte is a tab or a newline.
pub open spec fn tab_or_newline(x: u8) -> bool {
    x == 9u8 || x == 10u8
}

/// The text holds no NUL byte (a NUL ends the 16-byte string compare).
pub open spec fn nul_free(s: Seq<u8>) -> bool {
    forall|i: int| 0 <= i < s.len() ==> s[i] != 0u8
}

/// The positions of `s[lo..hi]` that a block scan reports are exactly those
/// that hold a tab or a newline; every other byte, a space included, belongs
/// to a field.
pub proof fn law_block_delims_are_tabs_and_newlines(s: Seq<u8>, lo: int, hi: int)
    requires
        0 <= lo,
        hi <= s.len(),
    ensures
        forall|i: int| lo <= i < hi ==> (delims_in(s, lo, hi).contains(i) <==> tab_or_newline(#[trigger] s[i])),
        forall|k: int| 0 <= k < delims_in(s, lo, hi).len() ==> tab_or_newline(s[#[trigger] delims_in(s, lo, hi)[k]]),
    decreases hi - lo,
{
    lemma_delims_in_range(s, lo, hi);
    if hi > lo {
        law_block_delims_are_tabs_and_newlines(s, lo, hi - 1);
        let a = delims_in(s, lo, hi - 1);
        let b: Seq<int> = if is_log_delim(s[hi - 1]) { seq![hi - 1] } else { seq![] };
        lemma_delims_in_range(s, lo, hi - 1);
        assert(delims_in(s, lo, hi) == a + b);
        assert forall|i: int| lo <= i < hi implies (delims_in(s, lo, hi).contains(i) <==> tab_or_newline(
            #[trigger] s[i],
        )) by {
            if delims_in(s, lo, hi).contains(i) {
                let k = choose|k: int| 0 <= k < (a + b).len() && (a + b)[k] == i;
                if k < a.len() {
                    assert(a[k] == i);
                } else {
                    assert(b[k - a.len()] == i);
                }
            }
            if tab_or_newline(s[i]) {
                if i < hi - 1 {
                    let k = choose|k: int| 0 <= k < a.len() && a[k] == i;
                    assert((a + b)[k] == i);
                } else {
                    assert((a + b)[a.len() as int] == i);
                }
            }
        }
    }
}

/// Within one 16-byte block of NUL-free text, no tab or newline lies before
/// the first match that the compare reports.
proof fn lemma_first_match_skips(s: Seq<u8>, o: int, i: int)
    requires
        0 <= i,
        0 <= o,
        o + 16 <= s.len(),
        nul_free(s),
    ensures
        forall|j: int| i <= j < sse_first_match(s, o, i) && j < 16 ==> !tab_or_newline(#[trigger] s[o + j]),
    decreases 16 - i,
{
    if i < 16 && !is_log_delim(s[o + i]) {
        assert(s[o + i] != 0u8);
        lemma_first_match_skips(s, o, i + 1);
    }
}

/// Where the stretch before delimiter `k` of the 16-byte scan from `o` starts.
pub open spec fn gap_start(d: Seq<int>, o: int, k: int) -> int {
    if k == 0 {
        o
    } else {
        d[k - 1] + 1
    }
}

proof fn lemma_sse_delims_gaps(s: Seq<u8>, o: int)
    requires
        0 <= o,
        nul_free(s),
    ensures
        forall|k: int| 0 <= k < sse_delims(s, o).len() ==> o <= #[trigger] sse_delims(s, o)[k] < s.len()
            && tab_or_newline(s[sse_delims(s, o)[k]]),
        forall|k: int|
            0 <= k < sse_delims(s, o).len() ==> gap_start(sse_delims(s, o), o, k) <= #[trigger] sse_delims(s, o)[k],
        forall|k: int, j: int|
            #![trigger sse_delims(s, o)[k], s[j]]
            0 <= k < sse_delims(s, o).len() && gap_start(sse_delims(s, o), o, k) <= j < sse_delims(s, o)[k]
                ==> !tab_or_newline(s[j]),
    decreases s.len() - o,
{
    if o + 16 <= s.len() {
        let i = sse_first_match(s, o, 0);
        lemma_sse_first_match(s, o, 0);
        lemma_first_match_skips(s, o, 0);
        let d = sse_delims(s, o);
        if i < 16 {
            let rest = sse_delims(s, o + i + 1);
            lemma_sse_delims_gaps(s, o + i + 1);
            assert(d == seq![o + i] + rest);
            assert forall|k: int| 0 <= k < d.len() implies o <= #[trigger] d[k] < s.len() && tab_or_newline(
                s[d[k]],
            ) by {
                if k > 0 {
                    assert(d[k] == rest[k - 1]);
                }
            }
            assert forall|k: int| 0 <= k < d.len() implies gap_start(d, o, k) <= #[trigger] d[k] by {
                if k > 0 {
                    assert(d[k] == rest[k - 1]);
                    if k > 1 {
                        assert(d[k - 1] == rest[k - 2]);
                    }
                    assert(gap_start(rest, o + i + 1, k - 1) == gap_start(d, o, k));
                }
            }
            assert forall|k: int, j: int|
                #![trigger d[k], s[j]]
                0 <= k < d.len() && gap_start(d, o, k) <= j < d[k] implies !tab_or_newline(s[j]) by {
                if k == 0 {
                    assert(s[o + (j - o)] == s[j]);
                } else {
                    assert(d[k] == rest[k - 1]);
                    if k > 1 {
                        assert(d[k - 1] == rest[k - 2]);
                    }
                    assert(gap_start(rest, o + i + 1, k - 1) == gap_start(d, o, k));
                }
            }
        } else {
            let rest = sse_delims(s, o + 16);
            lemma_sse_delims_gaps(s, o + 16);
            assert(d == rest);
            assert forall|k: int| 0 <= k < d.len() implies gap_start(d, o, k) <= #[trigger] d[k] by {
                if k > 0 {
                    assert(gap_start(rest, o + 16, k) == gap_start(d, o, k));
                }
            }
            assert forall|k: int, j: int|
                #![trigger d[k], s[j]]
                0 <= k < d.len() && gap_start(d, o, k) <= j < d[k] implies !tab_or_newline(s[j]) by {
                if k == 0 && j < o + 16 {
                    assert(s[o + (j - o)] == s[j]);
                } else if k == 0 {
                    assert(gap_start(rest, o + 16, 0) <= j);
                } else {
                    assert(gap_start(rest, o + 16, k) == gap_start(d, o, k));
                }
            }
        }
    }
}

/// The 16-byte scan of NUL-free log text ends fields exactly at tabs and
/// newlines: every position it reports holds a tab or a newline, and no field
/// of the records it decodes holds one, while any other byte (a space
/// included) stays inside its field.
pub proof fn law_sse_fields_end_at_tabs_and_newlines(s: Seq<u8>)
    requires
        nul_free(s),
    ensures
        forall|k: int| 0 <= k < sse_delims(s, 0).len() ==> tab_or_newline(s[#[trigger] sse_delims(s, 0)[k]]),
        forall|k: int, j: int|
            0 <= k < sse_delims(s, 0).len() && 0 <= j < log_field(s, sse_delims(s, 0), k).len()
                ==> !tab_or_newline(#[trigger] log_field(s, sse_delims(s, 0), k)[j]),
{
    let d = sse_delims(s, 0);
    lemma_sse_delims_gaps(s, 0);
    assert forall|k: int, j: int|
        0 <= k < d.len() && 0 <= j < log_field(s, d, k).len() implies !tab_or_newline(
        #[trigger] log_field(s, d, k)[j],
    ) by {
        assert(gap_start(d, 0, k) == field_start(d, k));
        assert(field_start(d, k) <= d[k]);
        assert(log_field(s, d, k)[j] == s[field_start(d, k) + j]);
    }
}

} // verus!

use vstd::prelude::*;
use crate::text::push_char;

verus! {

/// Columns assumed for the plain dump when the terminal's width is unknown.
pub const FALLBACK_WIDTH: usize = 120;

/// Bytes per row of the dump that highlights colons.
pub const HIGHLIGHT_BYTES_PER_LINE: usize = 32;

/// Columns of a row that are not byte cells: the offset (8), ": " (2),
/// " | " (3) and one more.
pub const ROW_OVERHEAD: usize = 14;

/// A hexadecimal digit, upper case when `upper` is set.
pub open spec fn hex_digit(d: nat, upper: bool) -> char {
    if d < 10 {
        (48 + d) as char
    } else if upper {
        (55 + d) as char
    } else {
        (87 + d) as char
    }
}

/// The hexadecimal digits of `n`, most significant first, with no leading
/// zeros (`"0"` for zero); upper case when `upper` is set.
pub open spec fn hex_text(n: nat, upper: bool) -> Seq<char>
    decreases n,
{
    if n < 16 {
        seq![hex_digit(n, upper)]
    } else {
        hex_text(n / 16, upper).push(hex_digit(n % 16, upper))
    }
}

/// `s` with zeros in front up to `width` characters (`{:0width$}`).
pub open spec fn zero_padded(s: Seq<char>, width: nat) -> Seq<char> {
    if s.len() >= width {
        s
    } else {
        Seq::new((width - s.len()) as nat, |i: int| '0') + s
    }
}

/// `{:0width$x}` of `n` (`{:0width$X}` when `upper` is set).
pub open spec fn hex_field(n: nat, width: nat, upper: bool) -> Seq<char> {
    zero_padded(hex_text(n, upper), width)
}

/// The escape sequence that turns the text yellow.
pub open spec fn yellow() -> Seq<char> {
    seq!['\x1b', '[', '3', '3', 'm']
}

/// The escape sequence that resets the colour.
pub open spec fn reset() -> Seq<char> {
    seq!['\x1b', '[', '0', 'm']
}

/// `n` spaces.
pub open spec fn spaces(n: nat) -> Seq<char> {
    Seq::new(n, |i: int| ' ')
}

/// How a byte shows in the text column: itself when it is a graphic ASCII
/// character or a space, else a dot.
pub open spec fn shown_char(b: u8) -> char {
    if 0x20 <= b <= 0x7e {
        b as char
    } else {
        '.'
    }
}

/// The hex cell of one byte, followed by a space; a colon is wrapped in the
/// yellow and reset sequences when `highlight` is set.
pub open spec fn hex_cell(b: u8, highlight: bool) -> Seq<char> {
    if highlight && b == 0x3a {
        yellow() + hex_field(b as nat, 2, false) + reset() + seq![' ']
    } else {
        hex_field(b as nat, 2, false) + seq![' ']
    }
}

/// The text cell of one byte; a colon is wrapped in the yellow and reset
/// sequences when `highlight` is set.
pub open spec fn text_cell(b: u8, highlight: bool) -> Seq<char> {
    if highlight && b == 0x3a {
        yellow() + seq![shown_char(b)] + reset()
    } else {
        seq![shown_char(b)]
    }
}

/// The hex cells of a row's bytes.
pub open spec fn hex_cells(bytes: Seq<u8>, highlight: bool) -> Seq<char>
    decreases bytes.len(),
{
    if bytes.len() == 0 {
        Seq::empty()
    } else {
        hex_cells(bytes.drop_last(), highlight) + hex_cell(bytes.last(), highlight)
    }
}

/// The text cells of a row's bytes.
pub open spec fn text_cells(bytes: Seq<u8>, highlight: bool) -> Seq<char>
    decreases bytes.len(),
{
    if bytes.len() == 0 {
        Seq::empty()
    } else {
        text_cells(bytes.drop_last(), highlight) + text_cell(bytes.last(), highlight)
    }
}

/// One row of the dump: the offset in eight or more hex digits, ": ", the hex
/// cells, three spaces for each byte a short last row lacks, " | ", the text
/// cells and a newline.
pub open spec fn dump_row(bytes: Seq<u8>, offset: nat, per_row: nat, highlight: bool) -> Seq<char> {
    hex_field(offset, 8, false) + seq![':', ' '] + hex_cells(bytes, highlight) + spaces(
        3 * (per_row - bytes.len()) as nat,
    ) + seq![' ', '|', ' '] + text_cells(bytes, highlight) + seq!['\n']
}

/// The rows of the dump of `buf` from byte `start` on, `per_row` bytes to a row.
pub open spec fn dump_rows(buf: Seq<u8>, per_row: nat, start: nat, highlight: bool) -> Seq<char>
    decreases buf.len() - start,
{
    if per_row == 0 || start >= buf.len() {
        Seq::empty()
    } else {
        let end = if start + per_row <= buf.len() {
            start + per_row
        } else {
            buf.len() as nat
        };
        dump_row(buf.subrange(start as int, end as int), start, per_row, highlight) + dump_rows(
            buf,
            per_row,
            end,
            highlight,
        )
    }
}

/// The bytes of a memory-table row as upper-case hex pairs separated by
/// single spaces.
pub open spec fn hex_pairs(bytes: Seq<u8>) -> Seq<char>
    decreases bytes.len(),
{
    if bytes.len() == 0 {
        Seq::empty()
    } else if bytes.len() == 1 {
        hex_field(bytes[0] as nat, 2, true)
    } else {
        hex_pairs(bytes.drop_last()) + seq![' '] + hex_field(bytes.last() as nat, 2, true)
    }
}

/// The bytes as text, each shown as itself when printable and as a dot
/// otherwise.
pub open spec fn shown_chars(bytes: Seq<u8>) -> Seq<char> {
    bytes.map_values(|b: u8| shown_char(b))
}

/// A row of the memory tables printed for the process environment block:
/// `0x`, the offset in two or more upper-case hex digits, three spaces, `| `,
/// the hex pairs, ` | ` and the bytes as text.
pub open spec fn table_row(offset: nat, bytes: Seq<u8>) -> Seq<char> {
    seq!['0', 'x'] + hex_field(offset, 2, true) + seq![' ', ' ', ' ', '|', ' '] + hex_pairs(bytes)
        + seq![' ', '|', ' '] + shown_chars(bytes)
}

/// Bytes per row of the plain dump for a terminal `width` columns wide: as many
/// three-column cells as fit beside the row's other columns, at least one.
pub open spec fn bytes_per_row(width: nat) -> nat {
    let usable: nat = if width >= ROW_OVERHEAD {
        (width - ROW_OVERHEAD) as nat
    } else {
        0
    };
    if usable / 3 >= 1 {
        usable / 3
    } else {
        1
    }
}

/// The usable width of the terminal reported as `columns` wide: ten columns
/// less, and none below zero.
pub open spec fn usable_columns(columns: u16) -> nat {
    if columns >= 10 {
        (columns - 10) as nat
    } else {
        0
    }
}

fn hex_digit_of(d: usize, upper: bool) -> (c: char)
    requires
        d < 16,
    ensures
        c == hex_digit(d as nat, upper),
{
    let b: u8 = if d < 10 {
        48 + d as u8
    } else if upper {
        55 + d as u8
    } else {
        87 + d as u8
    };
    b as char
}

/// Appends the hex digits of `n`.
fn push_hex(out: &mut String, n: usize, upper: bool)
    ensures
        final(out)@ == old(out)@ + hex_text(n as nat, upper),
    decreases n,
{
    if n >= 16 {
        push_hex(out, n / 16, upper);
    }
    push_char(out, hex_digit_of(n % 16, upper));
    if n < 16 {
        assert(old(out)@ + hex_text(n as nat, upper) =~= old(out)@.push(hex_digit(n as nat, upper)));
    } else {
        assert(old(out)@ + hex_text(n as nat, upper) =~= (old(out)@ + hex_text((n / 16) as nat, upper)).push(
            hex_digit((n % 16) as nat, upper),
        ));
    }
}

/// How many hex digits `n` has.
fn hex_len(n: usize, upper: bool) -> (r: usize)
    ensures
        r == hex_text(n as nat, upper).len(),
    decreases n,
{
    proof {
        lemma_hex_len_bound(n as nat, upper);
    }
    if n < 16 {
        1
    } else {
        proof {
            lemma_hex_len_bound((n / 16) as nat, upper);
        }
        hex_len(n / 16, upper) + 1
    }
}

proof fn lemma_hex_len_bound(n: nat, upper: bool)
    ensures
        hex_text(n, upper).len() <= n + 1,
    decreases n,
{
    if n >= 16 {
        lemma_hex_len_bound(n / 16, upper);
    }
}

/// Appends `n` copies of `c`.
fn push_repeated(out: &mut String, c: char, n: usize)
    ensures
        final(out)@ == old(out)@ + Seq::new(n as nat, |i: int| c),
{
    let mut k: usize = 0;
    while k < n
        invariant
            k <= n,
            out@ == old(out)@ + Seq::new(k as nat, |i: int| c),
        decreases n - k,
    {
        push_char(out, c);
        k = k + 1;
        assert(out@ =~= old(out)@ + Seq::new(k as nat, |i: int| c));
    }
}

/// Appends `{:0width$x}` of `n`.
fn push_hex_field(out: &mut String, n: usize, width: usize, upper: bool)
    ensures
        final(out)@ == old(out)@ + hex_field(n as nat, width as nat, upper),
{
    let len = hex_len(n, upper);
    let ghost start = out@;
    if len < width {
        push_repeated(out, '0', width - len);
    }
    push_hex(out, n, upper);
    assert(out@ =~= start + hex_field(n as nat, width as nat, upper));
}

fn push_yellow(out: &mut String)
    ensures
        final(out)@ == old(out)@ + yellow(),
{
    push_char(out, '\x1b');
    push_char(out, '[');
    push_char(out, '3');
    push_char(out, '3');
    push_char(out, 'm');
    assert(out@ =~= old(out)@ + yellow());
}

fn push_reset(out: &mut String)
    ensures
        final(out)@ == old(out)@ + reset(),
{
    push_char(out, '\x1b');
    push_char(out, '[');
    push_char(out, '0');
    push_char(out, 'm');
    assert(out@ =~= old(out)@ + reset());
}

fn shown_char_of(b: u8) -> (c: char)
    ensures
        c == shown_char(b),
{
    if 0x20 <= b && b <= 0x7e {
        b as char
    } else {
        '.'
    }
}

/// Appends the hex cells of `bytes`.
fn push_hex_cells(out: &mut String, bytes: &[u8], highlight: bool)
    ensures
        final(out)@ == old(out)@ + hex_cells(bytes@, highlight),
{
    let mut i: usize = 0;
    while i < bytes.len()
        invariant
            i <= bytes@.len(),
            out@ == old(out)@ + hex_cells(bytes@.take(i as int), highlight),
        decreases bytes@.len() - i,
    {
        let b = bytes[i];
        if highlight && b == 0x3a {
            push_yellow(out);
            push_hex_field(out, b as usize, 2, false);
            push_reset(out);
        } else {
            push_hex_field(out, b as usize, 2, false);
        }
        push_char(out, ' ');
        assert(bytes@.take(i + 1).drop_last() =~= bytes@.take(i as int));
        i = i + 1;
        assert(out@ =~= old(out)@ + hex_cells(bytes@.take(i as int), highlight));
    }
    assert(bytes@.take(bytes@.len() as int) =~= bytes@);
}

/// Appends the text cells of `bytes`.
fn push_text_cells(out: &mut String, bytes: &[u8], highlight: bool)
    ensures
        final(out)@ == old(out)@ + text_cells(bytes@, highlight),
{
    let mut j: usize = 0;
    while j < bytes.len()
        invariant
            j <= bytes@.len(),
            out@ == old(out)@ + text_cells(bytes@.take(j as int), highlight),
        decreases bytes@.len() - j,
    {
        let b = bytes[j];
        let c = shown_char_of(b);
        if highlight && b == 0x3a {
            push_yellow(out);
            push_char(out, c);
            push_reset(out);
        } else {
            push_char(out, c);
        }
        assert(bytes@.take(j + 1).drop_last() =~= bytes@.take(j as int));
        j = j + 1;
        assert(out@ =~= old(out)@ + text_cells(bytes@.take(j as int), highlight));
    }
    assert(bytes@.take(bytes@.len() as int) =~= bytes@);
}

/// Appends one row of the dump for `bytes`, which start at `offset`.
fn push_row(out: &mut String, bytes: &[u8], offset: usize, per_row: usize, highlight: bool)
    requires
        bytes@.len() <= per_row,
        3 * per_row <= usize::MAX,
    ensures
        final(out)@ == old(out)@ + dump_row(bytes@, offset as nat, per_row as nat, highlight),
{
    let ghost start = out@;
    let ghost head = hex_field(offset as nat, 8, false) + seq![':', ' '];
    let ghost cells = hex_cells(bytes@, highlight);
    let ghost pad = spaces(3 * (per_row - bytes@.len()) as nat);
    let ghost text = text_cells(bytes@, highlight);
    push_hex_field(out, offset, 8, false);
    push_char(out, ':');
    push_char(out, ' ');
    assert(out@ =~= start + head);
    push_hex_cells(out, bytes, highlight);
    push_repeated(out, ' ', 3 * (per_row - bytes.len()));
    assert(out@ =~= start + (head + cells + pad));
    push_char(out, ' ');
    push_char(out, '|');
    push_char(out, ' ');
    push_text_cells(out, bytes, highlight);
    push_char(out, '\n');
    assert(out@ =~= start + (head + cells + pad + seq![' ', '|', ' '] + text + seq!['\n']));
}

/// The dump of `buf`, `per_row` bytes to a row.
fn dump_text(buf: &[u8], per_row: usize, highlight: bool) -> (s: String)
    requires
        0 < per_row,
        3 * per_row <= usize::MAX,
    ensures
        s@ == dump_rows(buf@, per_row as nat, 0, highlight),
{
    let mut out = String::new();
    let mut start: usize = 0;
    while start < buf.len()
        invariant
            0 < per_row,
            3 * per_row <= usize::MAX,
            out@ + dump_rows(buf@, per_row as nat, start as nat, highlight) == dump_rows(
                buf@,
                per_row as nat,
                0,
                highlight,
            ),
        decreases buf@.len() - start,
    {
        let end: usize = if per_row <= buf.len() - start {
            start + per_row
        } else {
            buf.len()
        };
        let row = slice_range(buf, start, end);
        let ghost prev = out@;
        push_row(&mut out, row, start, per_row, highlight);
        let ghost rest = dump_rows(buf@, per_row as nat, end as nat, highlight);
        assert(out@ + rest =~= prev + dump_rows(buf@, per_row as nat, start as nat, highlight));
        start = end;
    }
    assert(out@ + dump_rows(buf@, per_row as nat, start as nat, highlight) =~= out@);
    out
}

fn slice_range(buf: &[u8], start: usize, end: usize) -> (r: &[u8])
    requires
        start <= end <= buf@.len(),
    ensures
        r@ == buf@.subrange(start as int, end as int),
{
    vstd::slice::slice_subrange(buf, start, end)
}

/// One row of a memory table: `0x` and the offset, the bytes as upper-case
/// hex pairs and the bytes as text (without a newline).
pub fn table_row_text(offset: usize, bytes: &[u8]) -> (s: String)
    ensures
        s@ == table_row(offset as nat, bytes@),
{
    let mut out = String::new();
    push_char(&mut out, '0');
    push_char(&mut out, 'x');
    push_hex_field(&mut out, offset, 2, true);
    push_char(&mut out, ' ');
    push_char(&mut out, ' ');
    push_char(&mut out, ' ');
    push_char(&mut out, '|');
    push_char(&mut out, ' ');
    let ghost before_pairs = out@;
    let mut i: usize = 0;
    while i < bytes.len()
        invariant
            i <= bytes@.len(),
            out@ == before_pairs + hex_pairs(bytes@.take(i as int)),
        decreases bytes@.len() - i,
    {
        if i > 0 {
            push_char(&mut out, ' ');
        }
        push_hex_field(&mut out, bytes[i] as usize, 2, true);
        assert(bytes@.take(i + 1).drop_last() =~= bytes@.take(i as int));
        i = i + 1;
        assert(out@ =~= before_pairs + hex_pairs(bytes@.take(i as int)));
    }
    assert(bytes@.take(bytes@.len() as int) =~= bytes@);
    push_char(&mut out, ' ');
    push_char(&mut out, '|');
    push_char(&mut out, ' ');
    let ghost before_text = out@;
    let mut j: usize = 0;
    while j < bytes.len()
        invariant
            j <= bytes@.len(),
            out@ == before_text + shown_chars(bytes@.take(j as int)),
        decreases bytes@.len() - j,
    {
        push_char(&mut out, shown_char_of(bytes[j]));
        j = j + 1;
        assert(out@ =~= before_text + shown_chars(bytes@.take(j as int)));
    }
    assert(out@ =~= table_row(offset as nat, bytes@));
    out
}

/// The plain hex dump of `buf` for a terminal `terminal_width` columns wide
/// (120 when unknown): `bytes_per_row` bytes to a row, each row the offset,
/// the hex cells, padding and the text cells.
pub fn hexdump_text(buf: &[u8], terminal_width: Option<usize>) -> (s: String)
    ensures
        s@ == dump_rows(
            buf@,
            bytes_per_row(
                match terminal_width {
                    Some(w) => w as nat,
                    None => FALLBACK_WIDTH as nat,
                },
            ),
            0,
            false,
        ),
{
    let width = match terminal_width {
        Some(w) => w,
        None => FALLBACK_WIDTH,
    };
    let usable = width.saturating_sub(ROW_OVERHEAD);
    let per_row = if usable / 3 >= 1 {
        usable / 3
    } else {
        1
    };
    dump_text(buf, per_row, false)
}

/// The hex dump of `buf` with 32 bytes to a row and every colon, in both
/// columns, shown in yellow.
pub fn hexdump_colon_highlight_text(buf: &[u8]) -> (s: String)
    ensures
        s@ == dump_rows(buf@, HIGHLIGHT_BYTES_PER_LINE as nat, 0, true),
{
    dump_text(buf, HIGHLIGHT_BYTES_PER_LINE, true)
}

/// The width of the terminal in columns (`terminal_size::terminal_size`, the
/// first of stdout, stderr and stdin that is a terminal), or `None`. What comes
/// back depends on the terminal the process runs in: nothing is stated of it.
#[verifier::external_body]
fn terminal_columns() -> (r: Option<u16>) {
    terminal_size::terminal_size().map(|(terminal_size::Width(w), _)| w)
}

/// The usable width of a terminal that reports `columns` (or `None`): ten
/// columns less, never below zero.
pub fn term_width_from(columns: Option<u16>) -> (r: Option<usize>)
    ensures
        r == match columns {
            Some(c) => Some(usable_columns(c) as usize),
            None => None::<usize>,
        },
{
    match columns {
        Some(c) => Some(c.saturating_sub(10) as usize),
        None => None,
    }
}

/// The usable width of the terminal this process writes to, if it has one;
/// it is at most `u16::MAX - 10`.
pub fn term_width() -> (r: Option<usize>)
    ensures
        match r {
            Some(w) => w <= u16::MAX - 10,
            None => true,
        },
{
    term_width_from(terminal_columns())
}

} // verus!

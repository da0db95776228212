use ninja_rs::dump::{
    hexdump_colon_highlight_text, hexdump_text, table_row_text, term_width, term_width_from,
};

#[test]
fn hexdump_narrow_terminal_three_bytes_per_row() {
    let text = hexdump_text(b"hello, world\n\x00\xff", Some(23));
    assert_eq!(
        text,
        "00000000: 68 65 6c  | hel\n00000003: 6c 6f 2c  | lo,\n00000006: 20 77 6f  |  wo\n00000009: 72 6c 64  | rld\n0000000c: 0a 00 ff  | ...\n"
    );
}

#[test]
fn hexdump_of_nothing_is_empty() {
    assert_eq!(hexdump_text(b"", None), "");
    assert_eq!(hexdump_colon_highlight_text(b""), "");
}

#[test]
fn hexdump_tiny_terminal_keeps_one_byte_per_row() {
    assert_eq!(hexdump_text(b"ab", Some(5)), "00000000: 61  | a\n00000001: 62  | b\n");
    assert_eq!(hexdump_text(b"ab", Some(0)), "00000000: 61  | a\n00000001: 62  | b\n");
}

#[test]
fn hexdump_unknown_width_uses_fallback_and_pads_last_row() {
    let buf: Vec<u8> = (0u8..40).collect();
    let text = hexdump_text(&buf, None);
    let expected = format!(
        "00000000: {} | {}\n00000023: 23 24 25 26 27 {} | #$%&'\n",
        (0u8..35).map(|b| format!("{:02x} ", b)).collect::<String>(),
        ".".repeat(32) + " !\"",
        " ".repeat(3 * 30),
    );
    assert_eq!(text, expected);
}

#[test]
fn colon_highlight_wraps_colons_in_yellow() {
    let text = hexdump_colon_highlight_text(b"a:b");
    let expected = format!(
        "00000000: 61 \x1b[33m3a\x1b[0m 62 {} | a\x1b[33m:\x1b[0mb\n",
        " ".repeat(3 * 29)
    );
    assert_eq!(text, expected);
}

#[test]
fn colon_highlight_rows_hold_thirty_two_bytes() {
    let buf = vec![b'x'; 33];
    let text = hexdump_colon_highlight_text(&buf);
    let lines: Vec<&str> = text.lines().collect();
    assert_eq!(lines.len(), 2);
    assert!(lines[1].starts_with("00000020: 78 "));
}

#[test]
fn term_width_leaves_ten_columns() {
    assert_eq!(term_width_from(Some(80)), Some(70));
    assert_eq!(term_width_from(Some(4)), Some(0));
    assert_eq!(term_width_from(None), None);
    if let Some(w) = term_width() {
        assert!(w <= u16::MAX as usize - 10);
    }
}

#[test]
fn table_rows_use_upper_case_pairs() {
    assert_eq!(
        table_row_text(8, &[0x41, 0x00, 0xff, 0x20, 0x7e, 0x7f, 0x1f, 0x5c]),
        "0x08   | 41 00 FF 20 7E 7F 1F 5C | A.. ~..\\"
    );
    assert_eq!(table_row_text(0x1A0, &[]), "0x1A0   |  | ");
    assert_eq!(table_row_text(0, &[0xab]), "0x00   | AB | .");
}

use rand::RngExt;
use ninja_rs::build_log::parse::hex::hex_parallel_chunk_size;
use ninja_rs::build::Edge;
use ninja_rs::build_log::parse::hex::{
    multiple_hex_to_u64_SWAR, multiple_hex_to_u64_sse, ninja_rs__build_log__parse__fast_hex_multiple_to_u64,
    ninja_rs__build_log__parse__fast_hex_single_to_u64, single_hex_to_u64_SWAR, single_hex_to_u64_sse,
};
use ninja_rs::build_log::parse::mtime::{
    atoi_i64_signed, atoi_i64_wrapping_signed, ninja_rs__atoi_i64_variable, normal_atoi_mtime,
    wrapping_signed_accepted, SimdAligned,
};
use ninja_rs::build_log::{
    avx2_log_scan, avx512_log_fields, fast_atoi_i32, fast_atoi_i64,
    parse_ninja_log_v7_text_using_sse_4_2, select_log_v7_parser, sse_4_2_log_entries,
    strip_log_header, BuildLog, BuildLogUser, LoadStatus, LogV7Parser,
};
use ninja_rs::build_log::log_v7_fields_readable;
use ninja_rs::numeric::no_byte_below_zero;

fn sample_log() -> Vec<u8> {
    let mut log = b"# ninja log v7\n".to_vec();
    log.extend_from_slice(b"1\t2\t300\tout/a.o\tdeadbeef\n");
    log.extend_from_slice(b"10\t20\t12345678901\tbuild/very/long/path/b.o\t0123456789abcdef\n");
    log.extend_from_slice(b"7\t8\t9\tc\t00\n");
    log
}

#[test]
fn atoi_reads_decimal_digits() {
    assert_eq!(fast_atoi_i32(b"12345"), 12345);
    assert_eq!(fast_atoi_i32(b""), 0);
    assert_eq!(fast_atoi_i64(b"1700000000000"), 1_700_000_000_000);
    assert_eq!(normal_atoi_mtime(b"9223372036854775807"), i64::MAX);
}

#[test]
fn atoi_wraps_on_overflow() {
    assert_eq!(fast_atoi_i32(b"2147483648"), i32::MIN);
    assert_eq!(fast_atoi_i32(b"4294967296"), 0);
    assert_eq!(fast_atoi_i64(b"9223372036854775808"), i64::MIN);
    assert_eq!(normal_atoi_mtime(b"18446744073709551617"), 1);
}

#[test]
fn signed_atoi_reads_sign_and_digits() {
    assert_eq!(atoi_i64_signed(b"-5"), -5);
    assert_eq!(atoi_i64_signed(b"0"), 0);
    assert_eq!(atoi_i64_signed(b"-"), 0);
    assert_eq!(atoi_i64_signed(b"9223372036854775807"), i64::MAX);
    assert_eq!(atoi_i64_signed(b"-9223372036854775807"), -i64::MAX);
    assert_eq!(atoi_i64_signed(b"+12"), -12);
    assert_eq!(atoi_i64_signed(b"00000000000000000000123"), 123);
}

#[test]
fn signed_atoi_wraps_digit_text_beyond_i64() {
    assert_eq!(atoi_i64_signed(b"9223372036854775808"), i64::MIN);
    assert_eq!(atoi_i64_signed(b"-9223372036854775809"), i64::MAX);
    assert_eq!(atoi_i64_signed(b"18446744073709551617"), 1);
    assert_eq!(ninja_rs__atoi_i64_variable(b"18446744073709551617", true), 1);
}

#[test]
fn atoi_variable_picks_reader() {
    assert_eq!(ninja_rs__atoi_i64_variable(b"-42", true), -42);
    assert_eq!(ninja_rs__atoi_i64_variable(b"42", false), 42);
}

#[test]
fn signed_atoi_round_trips_i64() {
    let samples = [0i64, 1, -1, 9, 10, -10, 1234567890123, -987654321, i64::MAX, i64::MIN + 1, i64::MIN];
    for n in samples {
        let text = n.to_string();
        assert_eq!(atoi_i64_signed(text.as_bytes()), n);
        assert_eq!(ninja_rs__atoi_i64_variable(text.as_bytes(), true), n);
        assert_eq!(ninja_rs__atoi_i64_variable(text.as_bytes(), false), n);
    }
    assert_eq!(ninja_rs__atoi_i64_variable(b"-9223372036854775808", true), i64::MIN);
    assert_eq!(ninja_rs__atoi_i64_variable(b"-9223372036854775808", false), i64::MIN);
}

#[test]
fn mtime_test_atoi() {
    let mut rng = rand::rng();
    let mut values: Vec<i64> = (0..200_000).map(|_| rng.random::<i64>()).collect();
    values.extend_from_slice(&[i64::MIN, i64::MIN + 1, -1, 0, 1, i64::MAX - 1, i64::MAX]);
    for v in values {
        let input = v.to_string();
        let expected: i64 = input.parse().unwrap();
        assert_eq!(expected, v);
        let simd = ninja_rs__atoi_i64_variable(input.as_bytes(), true);
        assert_eq!(simd, expected, "input {input}");
        let plain = ninja_rs__atoi_i64_variable(input.as_bytes(), false);
        assert_eq!(plain, expected, "input {input}");
    }
}

#[test]
fn wrapping_signed_reader() {
    assert_eq!(atoi_i64_wrapping_signed(b"-42"), -42);
    assert_eq!(atoi_i64_wrapping_signed(b"42"), 42);
    assert_eq!(atoi_i64_wrapping_signed(b""), 0);
    assert_eq!(atoi_i64_wrapping_signed(b"-9223372036854775808"), i64::MIN);
    assert_eq!(atoi_i64_wrapping_signed(b"9223372036854775808"), i64::MIN);
    assert_eq!(atoi_i64_wrapping_signed(b"-18446744073709551617"), -1);
    assert!(wrapping_signed_accepted(b"-123"));
    assert!(wrapping_signed_accepted(b""));
    assert!(!wrapping_signed_accepted(b"-1-2"));
    assert!(!wrapping_signed_accepted(b"1/"));
}

#[test]
fn wrapping_reading_of_joined_digits() {
    let cases: [(&[u8], &[u8]); 4] = [
        (b"123", b"456"),
        (b"", b"77"),
        (b"99999999999", b"9999999999999"),
        (b"18446744073709551615", b"3"),
    ];
    for (a, b) in cases {
        let joined: Vec<u8> = [a, b].concat();
        let pow = 10i64.wrapping_pow(b.len() as u32);
        let expected = normal_atoi_mtime(a).wrapping_mul(pow).wrapping_add(normal_atoi_mtime(b));
        assert_eq!(normal_atoi_mtime(&joined), expected);
        assert_eq!(fast_atoi_i64(&joined), expected);
    }
}

#[test]
fn simd_aligned_pads_with_zero_digits() {
    let a = SimdAligned::<u8, 5>::from_ascii(b"12");
    assert_eq!(a.0, *b"12000");
    let b = SimdAligned::<u8, 3>::from_ascii(b"abc");
    assert_eq!(b.0, *b"abc");
    let c = SimdAligned::<u8, 4>::from_ascii(b"");
    assert_eq!(c.0, *b"0000");
}

#[test]
fn test_fast_hex_to_u64() {
    let input: &[u8; 16] = b"19b5ffbff15c5c7a";
    let expected = u64::from_str_radix("19b5ffbff15c5c7a", 16).unwrap();
    assert_eq!(ninja_rs__build_log__parse__fast_hex_single_to_u64(input, true), expected);
    assert_eq!(ninja_rs__build_log__parse__fast_hex_single_to_u64(input, false), expected);
    assert_eq!(single_hex_to_u64_SWAR(input), 1852668021586025594);
    assert_eq!(single_hex_to_u64_sse(b"19B5FFBFF15C5C7A"), 1852668021586025594);
}

#[test]
fn hex_decoders_on_other_bytes() {
    assert_eq!(single_hex_to_u64_SWAR(b"zzzzzzzzzzzzzzzz"), 0x3333333333333333);
    assert_eq!(single_hex_to_u64_sse(b"zzzzzzzzzzzzzzzz"), u64::MAX);
    assert_eq!(single_hex_to_u64_SWAR(b"gggggggggggggggg"), 0x1111111111111110);
    assert_eq!(single_hex_to_u64_SWAR(&[0x80; 16]), 0);
    assert_eq!(single_hex_to_u64_sse(&[0x80; 16]), 0);
    assert_eq!(single_hex_to_u64_SWAR(b"0000000000000000"), 0);
    assert_eq!(single_hex_to_u64_SWAR(b"ffffffffffffffff"), u64::MAX);
}

#[test]
fn fuzz_hex_parser() {
    const ITERS: usize = 1_000_000;
    let mut rng = rand::rng();
    let digits = b"0123456789abcdef";
    let mut inputs = vec![[0u8; 16]; ITERS];
    for input in inputs.iter_mut() {
        for b in input.iter_mut() {
            *b = digits[rng.random_range(0..16)];
        }
    }
    let expected: Vec<u64> = inputs
        .iter()
        .map(|h| u64::from_str_radix(std::str::from_utf8(h).unwrap(), 16).unwrap())
        .collect();
    // The parallel decoder's plan, run chunk by chunk: equal chunks, then the rest.
    let chunk = hex_parallel_chunk_size(ITERS, None, Some(7)).unwrap();
    for sse3 in [false, true] {
        let mut outputs = vec![0u64; ITERS];
        let whole = ITERS / chunk * chunk;
        for (in_c, out_c) in inputs[..whole].chunks_exact(chunk).zip(outputs[..whole].chunks_exact_mut(chunk)) {
            ninja_rs__build_log__parse__fast_hex_multiple_to_u64(in_c, out_c, sse3);
        }
        ninja_rs__build_log__parse__fast_hex_multiple_to_u64(&inputs[whole..], &mut outputs[whole..], sse3);
        for i in 0..ITERS {
            assert_eq!(outputs[i], expected[i], "index {i} of {ITERS}");
        }
    }
    for i in (0..ITERS).step_by(997) {
        assert_eq!(ninja_rs__build_log__parse__fast_hex_single_to_u64(&inputs[i], true), expected[i]);
        assert_eq!(ninja_rs__build_log__parse__fast_hex_single_to_u64(&inputs[i], false), expected[i]);
    }
}

#[test]
fn fast_hex_multiple_leaves_extra_slots() {
    let inputs = [*b"0000000000000010", *b"00000000000000ff"];
    let mut out = [7u64; 3];
    ninja_rs__build_log__parse__fast_hex_multiple_to_u64(&inputs, &mut out, false);
    assert_eq!(out, [16, 255, 7]);
}

#[test]
fn log_header_is_stripped() {
    assert_eq!(strip_log_header(b"# ninja log v7\nabc"), b"abc");
    assert_eq!(strip_log_header(b"# ninja log v6\nabc"), b"# ninja log v6\nabc");
    assert_eq!(strip_log_header(b"short"), b"short");
}

#[test]
fn sse_scan_decodes_records_of_whole_blocks() {
    let log = sample_log();
    let entries = sse_4_2_log_entries(&log);
    assert_eq!(entries.len(), 1);
    assert_eq!(entries[0].start_time, 1);
    assert_eq!(entries[0].end_time, 2);
    assert_eq!(entries[0].mtime, 300);
    assert_eq!(entries[0].path, b"out/a.o");
    assert_eq!(entries[0].command_hash, b"deadbeef");
    assert!(parse_ninja_log_v7_text_using_sse_4_2(&log).is_ok());
}

#[test]
fn sse_scan_reads_all_records_with_trailing_text() {
    let mut log = sample_log();
    log.extend_from_slice(&[b'#'; 64]);
    let entries = sse_4_2_log_entries(&log);
    assert_eq!(entries.len(), 3);
    assert_eq!(entries[1].start_time, 10);
    assert_eq!(entries[1].mtime, 12345678901);
    assert_eq!(entries[1].path, b"build/very/long/path/b.o");
    assert_eq!(entries[1].command_hash, b"0123456789abcdef");
    assert_eq!(entries[2].path, b"c");
}

#[test]
fn sse_scan_stops_a_block_at_nul() {
    let mut log = b"# ninja log v7\n5\t6\t7\tp\th\n\x008\t9\t10\tq\tk\n".to_vec();
    log.extend_from_slice(&[b'z'; 40]);
    let entries = sse_4_2_log_entries(&log);
    assert_eq!(entries.len(), 1);
    assert_eq!(entries[0].path, b"p");
}

#[test]
fn avx2_scan_reports_where_it_stopped() {
    let log = sample_log();
    let scan = avx2_log_scan(&log);
    assert_eq!(scan.entries.len(), 1);
    assert_eq!(scan.entries[0].command_hash, b"deadbeef");
    assert_eq!(scan.cursor, 68);
    assert_eq!(scan.field_start, 68);
    assert_eq!(scan.field_index, 4);

    let mut log2 = sample_log();
    log2.extend_from_slice(&[b'#'; 64]);
    let scan = avx2_log_scan(&log2);
    assert_eq!(scan.entries.len(), 3);
    assert_eq!(scan.cursor, 160);
    assert_eq!(scan.field_start, 96);
    assert_eq!(scan.field_index, 0);
}

#[test]
fn avx512_scan_reports_fields() {
    let log = sample_log();
    let fields = avx512_log_fields(&log);
    let expected: Vec<&[u8]> = vec![b"1", b"2", b"300", b"out/a.o", b"deadbeef", b"10", b"20", b"12345678901"];
    assert_eq!(fields, expected);
}

#[test]
fn log_parser_selection() {
    assert_eq!(select_log_v7_parser(true, true, true, 64), Some(LogV7Parser::Avx512));
    assert_eq!(select_log_v7_parser(true, true, true, 63), Some(LogV7Parser::Avx2));
    assert_eq!(select_log_v7_parser(false, false, true, 16), Some(LogV7Parser::Sse42));
    assert_eq!(select_log_v7_parser(false, false, true, 15), None);
    assert_eq!(select_log_v7_parser(false, false, false, 1000), None);
}

struct NoneDead;

impl BuildLogUser for NoneDead {
    fn is_path_dead(&self, _path: &str) -> bool {
        false
    }
}

#[test]
fn build_log_operations() {
    let mut log = BuildLog::new();
    assert!(!log.log_file_open());
    assert_eq!(log.log_file_path(), "");
    assert!(log.open_for_write(String::from(".ninja_log"), &NoneDead).is_ok());
    assert_eq!(log.log_file_path(), ".ninja_log");
    assert!(log.record_command(&Edge, 1, 2, 3).is_ok());
    let mut err = String::new();
    assert_eq!(log.load(".ninja_log", &mut err), LoadStatus::LoadSuccess);
    assert_eq!(err, "");
    assert!(log.recompact(".ninja_log", &NoneDead).is_ok());
    assert!(!log.needs_recompaction());
}

#[test]
fn readable_fields_are_checked_before_scanning() {
    let log = sample_log();
    assert!(log_v7_fields_readable(&log, LogV7Parser::Sse42));
    assert!(log_v7_fields_readable(&log, LogV7Parser::Avx2));
    assert!(log_v7_fields_readable(&log, LogV7Parser::Avx512));
    let bad = b"# ninja log v7\n1\t2\t-3\tout/a/much/longer/path/name.o\tab\n".to_vec();
    assert!(!log_v7_fields_readable(&bad, LogV7Parser::Sse42));
    assert!(!log_v7_fields_readable(&bad, LogV7Parser::Avx2));
    assert!(log_v7_fields_readable(&bad, LogV7Parser::Avx512));
    // Too short for either scan: nothing is read, so nothing can fail.
    let short = b"# ninja log v7\n-1\t2\n".to_vec();
    assert!(log_v7_fields_readable(&short, LogV7Parser::Sse42));
    assert!(log_v7_fields_readable(&short, LogV7Parser::Avx2));
    assert_eq!(parse_ninja_log_v7_text_using_sse_4_2(&log), Ok(()));
}

#[test]
fn reader_inputs_are_checked() {
    assert!(no_byte_below_zero(b"0129abc"));
    assert!(!no_byte_below_zero(b"12/3"));
    assert!(no_byte_below_zero(b""));
}

#[test]
fn records_by_path_keep_the_last_record_of_each_path() {
    let e = |path: &'static [u8], start: i32| ninja_rs::build_log::LogEntyV7 {
        start_time: start,
        end_time: start + 1,
        mtime: 0,
        path,
        command_hash: b"00",
    };
    let entries = vec![e(b"a", 1), e(b"b", 2), e(b"a", 3), e(b"c", 4), e(b"b", 5)];
    let r = ninja_rs::build_log::index::records_by_path(&entries);
    assert_eq!(r.len(), 3);
    let starts: Vec<(&[u8], i32)> = r.iter().map(|x| (x.path, x.start_time)).collect();
    assert_eq!(starts, vec![(&b"a"[..], 3), (&b"b"[..], 5), (&b"c"[..], 4)]);
    assert!(ninja_rs::build_log::index::records_by_path(&Vec::new()).is_empty());
}

struct DeadOutputs(Vec<&'static str>);

impl BuildLogUser for DeadOutputs {
    fn is_path_dead(&self, path: &str) -> bool {
        self.0.contains(&path)
    }
}

fn entry(output: &str, hash: u64) -> ninja_rs::build_log::LogEntry {
    ninja_rs::build_log::LogEntry {
        output: output.to_string(),
        command_hash: hash,
        start_time: 1,
        end_time: 2,
        mtime: 3,
    }
}

#[test]
fn recompact_drops_the_entries_of_dead_outputs() {
    let mut log = BuildLog::new();
    assert!(log.entries().is_empty());
    log.add_entry(entry("a.o", 1));
    log.add_entry(entry("b.o", 2));
    log.add_entry(entry("c.o", 3));
    log.add_entry(entry("a.o", 4));
    let outputs: Vec<(&str, u64)> = log.entries().iter().map(|e| (e.output.as_str(), e.command_hash)).collect();
    assert_eq!(outputs, vec![("a.o", 4), ("b.o", 2), ("c.o", 3)]);
    assert!(log.recompact(".ninja_log", &DeadOutputs(vec!["b.o"])).is_ok());
    let outputs: Vec<(&str, u64)> = log.entries().iter().map(|e| (e.output.as_str(), e.command_hash)).collect();
    assert_eq!(outputs, vec![("a.o", 4), ("c.o", 3)]);
    assert!(log.recompact(".ninja_log", &NoneDead).is_ok());
    assert_eq!(log.entries().len(), 2);
    assert!(log.recompact(".ninja_log", &DeadOutputs(vec!["a.o", "c.o"])).is_ok());
    assert!(log.entries().is_empty());
}

#[test]
fn entries_without_dead_keeps_order() {
    let es = vec![entry("x", 1), entry("y", 2), entry("z", 3)];
    let kept = ninja_rs::build_log::entries_without_dead(es, &vec![false, true, false]);
    let outputs: Vec<&str> = kept.iter().map(|e| e.output.as_str()).collect();
    assert_eq!(outputs, vec!["x", "z"]);
}

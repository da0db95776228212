use ninja_rs::build_log::parse::hex::hex_parallel_chunk_size;
use ninja_rs::longpath::nt_long_path;
use ninja_rs::stat::{stat_single_file_result, EPOCH_DIFF_TICKS};
use ninja_rs::timestamp_from_win32_mfiletime;

#[test]
fn nt_long_path_rewrites_win32_prefix() {
    assert_eq!(nt_long_path("\\\\?\\C:\\very\\long"), "\\??\\C:\\very\\long");
    assert_eq!(nt_long_path("C:\\plain"), "C:\\plain");
    assert_eq!(nt_long_path(""), "");
    assert_eq!(nt_long_path("\\\\?\\a\\\\?\\b"), "\\??\\a\\??\\b");
    assert_eq!(nt_long_path("\\\\?"), "\\\\?");
    assert_eq!(nt_long_path("\\\\\\?\\x"), "\\\\??\\x");
}

#[test]
fn stat_single_file_reports_four_when_missing() {
    assert_eq!(stat_single_file_result(None), 4);
    assert_eq!(stat_single_file_result(Some(EPOCH_DIFF_TICKS + 42)), 42);
    assert_eq!(timestamp_from_win32_mfiletime(EPOCH_DIFF_TICKS), 0);
    assert_eq!(EPOCH_DIFF_TICKS, 11_644_473_600u64 * 10_000_000);
}

#[test]
fn parallel_chunks_follow_the_worker_count() {
    assert_eq!(hex_parallel_chunk_size(100, Some(8), Some(2)), Some(12));
    assert_eq!(hex_parallel_chunk_size(100, None, Some(2)), Some(50));
    assert_eq!(hex_parallel_chunk_size(100, None, None), Some(33));
    assert_eq!(hex_parallel_chunk_size(3, Some(3), None), Some(1));
    assert_eq!(hex_parallel_chunk_size(2, Some(3), None), None);
    assert_eq!(hex_parallel_chunk_size(100, None, Some(0)), None);
    assert_eq!(hex_parallel_chunk_size(100, Some(0), Some(4)), None);
}

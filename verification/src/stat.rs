use vstd::prelude::*;

verus! {

/// 11,644,473,600 seconds in 100-nanosecond ticks: the time from the Windows
/// file time epoch (1601-01-01) to the Unix epoch (1970-01-01), taken off a
/// file time so that stat results count from the Unix epoch.
pub const EPOCH_DIFF_TICKS: u64 = 116_444_736_000_000_000;

/// A Windows file time (100-nanosecond ticks since 1601) as a timestamp in
/// 100-nanosecond ticks since the Unix epoch: the ticks less
/// `EPOCH_DIFF_TICKS`, the difference taken as an unsigned number and then read as a
/// signed one.
pub fn timestamp_from_win32_mfiletime(filetime_ticks: u64) -> (t: i64)
    requires
        filetime_ticks >= EPOCH_DIFF_TICKS,
    ensures
        t == (filetime_ticks - EPOCH_DIFF_TICKS) as i64,
        filetime_ticks - EPOCH_DIFF_TICKS <= i64::MAX ==> t == filetime_ticks - EPOCH_DIFF_TICKS,
{
    let shifted = filetime_ticks - EPOCH_DIFF_TICKS;
    shifted as i64
}

/// What the single-file stat reports for a file whose last write time is
/// `last_write_ticks`, or `None` when its metadata could not be read: the
/// time since the Unix epoch, or 4 for a file it could not stat.
pub fn stat_single_file_result(last_write_ticks: Option<u64>) -> (t: i64)
    requires
        match last_write_ticks {
            Some(ticks) => ticks >= EPOCH_DIFF_TICKS,
            None => true,
        },
    ensures
        t == match last_write_ticks {
            Some(ticks) => (ticks - EPOCH_DIFF_TICKS) as i64,
            None => 4,
        },
{
    match last_write_ticks {
        Some(ticks) => timestamp_from_win32_mfiletime(ticks),
        None => 4,
    }
}

/// Later file times give later timestamps, for file times from the epoch on
/// whose distance from it fits in an `i64`: comparing timestamps compares the
/// times of the files.
pub proof fn law_timestamps_keep_order(a: u64, b: u64)
    requires
        EPOCH_DIFF_TICKS <= a <= b,
        b - EPOCH_DIFF_TICKS <= i64::MAX,
    ensures
        ((a - EPOCH_DIFF_TICKS) as i64) <= ((b - EPOCH_DIFF_TICKS) as i64),
        ((a - EPOCH_DIFF_TICKS) as i64) == a - EPOCH_DIFF_TICKS,
{
}

} // verus!

use vstd::prelude::*;
use crate::build::Edge;
use crate::numeric::{
    decimal_value, lemma_i32_wrapping_add, lemma_i32_wrapping_mul, lemma_i64_wrapping_add,
    lemma_i64_wrapping_mul, lemma_wrap_mod, lemma_wrap_step, modulus_32, modulus_64,
    no_byte_below_zero_digit, wrap_signed,
};

pub mod check;
pub mod entries;
pub mod index;
pub mod parse;
pub mod v7;

pub use v7::{
    avx2_log_scan, avx512_log_fields, parse_ninja_log_v7_text_using_sse_4_2, sse_4_2_log_entries,
    strip_log_header, Avx2LogScan, LogEntyV7,
};
pub use check::log_v7_fields_readable;
pub use entries::{entries_without_dead, find_output, live_entries, with_entry, LogEntry};

verus! {

/// Reads the bytes as decimal digits into an `i32`, wrapping on overflow.
pub fn fast_atoi_i32(bytes: &[u8]) -> (val: i32)
    requires
        no_byte_below_zero_digit(bytes@),
    ensures
        val as int == wrap_signed(decimal_value(bytes@), modulus_32()),
{
    let mut val: i32 = 0;
    let mut i: usize = 0;
    while i < bytes.len()
        invariant
            i <= bytes.len(),
            no_byte_below_zero_digit(bytes@),
            val as int == wrap_signed(decimal_value(bytes@.take(i as int)), modulus_32()),
        decreases bytes.len() - i,
    {
        let b = bytes[i];
        assert(bytes@[i as int] >= 48);
        let digit = (b - 48u8) as i32;
        let ghost prev = decimal_value(bytes@.take(i as int));
        proof {
            lemma_i32_wrapping_mul(val, 10);
            lemma_wrap_step(prev, 0, modulus_32());
            lemma_wrap_mod(prev * 10, modulus_32());
            lemma_i32_wrapping_add(vstd::wrapping::i32_specs::wrapping_mul(val, 10), digit);
            lemma_wrap_step(prev, digit as int, modulus_32());
            lemma_wrap_mod(prev, modulus_32());
            assert(bytes@.take(i + 1).drop_last() =~= bytes@.take(i as int));
        }
        val = val.wrapping_mul(10).wrapping_add(digit);
        i = i + 1;
    }
    assert(bytes@.take(bytes.len() as int) =~= bytes@);
    val
}

/// Reads the bytes as decimal digits into an `i64`, wrapping on overflow.
pub fn fast_atoi_i64(bytes: &[u8]) -> (val: i64)
    requires
        no_byte_below_zero_digit(bytes@),
    ensures
        val as int == wrap_signed(decimal_value(bytes@), modulus_64()),
{
    let mut val: i64 = 0;
    let mut i: usize = 0;
    while i < bytes.len()
        invariant
            i <= bytes.len(),
            no_byte_below_zero_digit(bytes@),
            val as int == wrap_signed(decimal_value(bytes@.take(i as int)), modulus_64()),
        decreases bytes.len() - i,
    {
        let b = bytes[i];
        assert(bytes@[i as int] >= 48);
        let digit = (b - 48u8) as i64;
        let ghost prev = decimal_value(bytes@.take(i as int));
        proof {
            lemma_i64_wrapping_mul(val, 10);
            lemma_wrap_step(prev, 0, modulus_64());
            lemma_wrap_mod(prev * 10, modulus_64());
            lemma_i64_wrapping_add(vstd::wrapping::i64_specs::wrapping_mul(val, 10), digit);
            lemma_wrap_step(prev, digit as int, modulus_64());
            lemma_wrap_mod(prev, modulus_64());
            assert(bytes@.take(i + 1).drop_last() =~= bytes@.take(i as int));
        }
        val = val.wrapping_mul(10).wrapping_add(digit);
        i = i + 1;
    }
    assert(bytes@.take(bytes.len() as int) =~= bytes@);
    val
}

/// Answers questions about the manifest for the build log (usually implemented
/// by the build state).
pub trait BuildLogUser {
    /// Whether an output is no longer part of the build manifest; log
    /// recompaction drops the entries of such outputs.
    fn is_path_dead(&self, path: &str) -> bool;
}

/// The status of a build log load.
#[derive(Copy, Clone, Debug, PartialEq, Eq, Structural)]
pub enum LoadStatus {
    LoadSuccess,
    LoadNotFound,
    LoadError,
}

/// The log of previously run commands: the last successful build of each
/// output, one entry per output. The file handle for appending entries stays
/// with the program; the log keeps whether one is open.
pub struct BuildLog {
    entries: Vec<LogEntry>,
    log_file_open: bool,
    log_file_path: String,
    needs_recompaction: bool,
}

impl BuildLog {
    pub closed spec fn spec_log_file_open(&self) -> bool {
        self.log_file_open
    }

    pub closed spec fn spec_log_file_path(&self) -> Seq<char> {
        self.log_file_path@
    }

    pub closed spec fn spec_needs_recompaction(&self) -> bool {
        self.needs_recompaction
    }

    /// The entries of the log, in the order their outputs were first recorded.
    pub closed spec fn spec_entries(&self) -> Seq<LogEntry> {
        self.entries@
    }

    /// An empty log with no file.
    pub fn new() -> (l: Self)
        ensures
            !l.spec_log_file_open(),
            l.spec_log_file_path() == Seq::<char>::empty(),
            !l.spec_needs_recompaction(),
            l.spec_entries() == Seq::<LogEntry>::empty(),
    {
        BuildLog {
            entries: Vec::new(),
            log_file_open: false,
            log_file_path: String::new(),
            needs_recompaction: false,
        }
    }

    /// Records `entry` as the last successful build of its output: it replaces
    /// the entry of that output, or is added when the output has none.
    pub fn add_entry(&mut self, entry: LogEntry)
        ensures
            final(self).spec_entries() == with_entry(old(self).spec_entries(), entry),
            final(self).spec_log_file_path() == old(self).spec_log_file_path(),
            final(self).spec_log_file_open() == old(self).spec_log_file_open(),
            final(self).spec_needs_recompaction() == old(self).spec_needs_recompaction(),
    {
        match find_output(&self.entries, entry.output.as_str()) {
            Some(k) => {
                self.entries.set(k, entry);
            },
            None => {
                self.entries.push(entry);
            },
        }
    }

    /// The entries of the log.
    pub fn entries(&self) -> (es: &Vec<LogEntry>)
        ensures
            es@ == self.spec_entries(),
    {
        &self.entries
    }

    /// Prepares the log for writing at `path`; the file is opened only when the
    /// first entry is written.
    pub fn open_for_write(&mut self, path: String, _user: &dyn BuildLogUser) -> (r: Result<(), String>)
        ensures
            r is Ok,
            final(self).spec_log_file_path() == path@,
            final(self).spec_entries() == old(self).spec_entries(),
            final(self).spec_log_file_open() == old(self).spec_log_file_open(),
            final(self).spec_needs_recompaction() == old(self).spec_needs_recompaction(),
    {
        self.log_file_path = path;
        Ok(())
    }

    /// Records a successful command.
    pub fn record_command(
        &mut self,
        _edge: &Edge,
        _start_time: i32,
        _end_time: i32,
        _mtime: i64,
    ) -> (r: Result<(), String>)
        ensures
            r is Ok,
            final(self).spec_entries() == old(self).spec_entries(),
            final(self).spec_log_file_path() == old(self).spec_log_file_path(),
            final(self).spec_log_file_open() == old(self).spec_log_file_open(),
            final(self).spec_needs_recompaction() == old(self).spec_needs_recompaction(),
    {
        self.open_for_write_if_needed()
    }

    /// Loads the log at `_path`.
    pub fn load(&mut self, _path: &str, _err: &mut String) -> (r: LoadStatus)
        ensures
            r == LoadStatus::LoadSuccess,
            final(_err)@ == old(_err)@,
            final(self).spec_entries() == old(self).spec_entries(),
            final(self).spec_log_file_path() == old(self).spec_log_file_path(),
            final(self).spec_log_file_open() == old(self).spec_log_file_open(),
            final(self).spec_needs_recompaction() == old(self).spec_needs_recompaction(),
    {
        LoadStatus::LoadSuccess
    }

    /// Rewrites the log without the entries of dead outputs: `user` is asked,
    /// for the output of each entry, whether it is dead, and the entries whose
    /// output is dead are dropped; the others keep their order.
    pub fn recompact(&mut self, _path: &str, user: &dyn BuildLogUser) -> (r: Result<(), String>)
        ensures
            r is Ok,
            exists|dead: Seq<bool>|
                dead.len() == old(self).spec_entries().len() && #[trigger] live_entries(
                    old(self).spec_entries(),
                    dead,
                ) == final(self).spec_entries(),
            final(self).spec_log_file_path() == old(self).spec_log_file_path(),
            final(self).spec_log_file_open() == old(self).spec_log_file_open(),
            final(self).spec_needs_recompaction() == old(self).spec_needs_recompaction(),
    {
        let mut dead: Vec<bool> = Vec::new();
        let mut i: usize = 0;
        while i < self.entries.len()
            invariant
                i <= self.entries@.len(),
                dead@.len() == i,
                *self == *old(self),
            decreases self.entries@.len() - i,
        {
            let d = user.is_path_dead(self.entries[i].output.as_str());
            dead.push(d);
            i = i + 1;
        }
        let ghost before = self.entries@;
        let mut kept: Vec<LogEntry> = Vec::new();
        std::mem::swap(&mut kept, &mut self.entries);
        self.entries = entries_without_dead(kept, &dead);
        assert(before == old(self).spec_entries());
        assert(dead@.len() == before.len());
        assert(live_entries(before, dead@) == self.entries@);
        Ok(())
    }

    fn open_for_write_if_needed(&mut self) -> (r: Result<(), String>)
        ensures
            r is Ok,
            *final(self) == *old(self),
    {
        if self.log_file_open {
            return Ok(());
        }
        Ok(())
    }

    /// Whether a file is open for appending entries.
    pub fn log_file_open(&self) -> (b: bool)
        ensures
            b == self.spec_log_file_open(),
    {
        self.log_file_open
    }

    /// Where entries are written.
    pub fn log_file_path(&self) -> (p: &str)
        ensures
            p@ == self.spec_log_file_path(),
    {
        self.log_file_path.as_str()
    }

    /// Whether the log should be rewritten without dead entries.
    pub fn needs_recompaction(&self) -> (b: bool)
        ensures
            b == self.spec_needs_recompaction(),
    {
        self.needs_recompaction
    }
}

/// The decoders of a version 7 log, by the vector width they use.
#[derive(Copy, Clone, Debug, PartialEq, Eq, Structural)]
pub enum LogV7Parser {
    Avx512,
    Avx2,
    Sse42,
}

/// The decoder used for a log of `len` bytes on a processor with the given
/// features: the widest one whose vector fits in the text; none when no
/// supported one does.
pub fn select_log_v7_parser(avx512: bool, avx2: bool, sse42: bool, len: usize) -> (r: Option<
    LogV7Parser,
>)
    ensures
        r == (if avx512 && len >= 64 {
            Some(LogV7Parser::Avx512)
        } else if avx2 && len >= 32 {
            Some(LogV7Parser::Avx2)
        } else if sse42 && len >= 16 {
            Some(LogV7Parser::Sse42)
        } else {
            None::<LogV7Parser>
        }),
{
    if avx512 && len >= 64 {
        Some(LogV7Parser::Avx512)
    } else if avx2 && len >= 32 {
        Some(LogV7Parser::Avx2)
    } else if sse42 && len >= 16 {
        Some(LogV7Parser::Sse42)
    } else {
        None
    }
}

} // verus!

use vstd::prelude::*;
use crate::text::{
    decimal_chars, decimal_string, i128_parse_error_text, parse_i128, parse_usize, push_char,
    signed_text_value, str_equals, unsigned_text_value, usize_parse_error_text,
};

verus! {

/// Command-line options.
pub struct Options {
    /// Build file to load.
    pub input_file: String,
    /// Directory to change into before running.
    pub working_dir: String,
    /// Tool to run rather than building.
    pub tool: Option<()>,
    /// Whether phony cycles should warn or print an error.
    pub phony_cycle_should_err: bool,
}

impl Default for Options {
    fn default() -> (o: Self)
        ensures
            o.input_file@ == Seq::<char>::empty(),
            o.working_dir@ == Seq::<char>::empty(),
            o.tool is None,
            !o.phony_cycle_should_err,
    {
        Options {
            input_file: String::new(),
            working_dir: String::new(),
            tool: None,
            phony_cycle_should_err: false,
        }
    }
}

/// The debugging modes that `-d` enables.
#[derive(Copy, Clone, PartialEq, Eq, PartialOrd, Ord, Debug, Structural)]
pub enum NinjaDebugModes {
    /// stats
    Stats,
    Explain,
    Keepdepfile,
    Keeprsp,
    NostatCache,
    List,
}

/// The text that lists the debugging modes.
pub open spec fn debug_modes_list_text() -> Seq<char> {
    "\r\ndebugging modes:\r\n  stats        print operation counts/timing info\r\n  explain      explain what caused a command to execute\r\n  keepdepfile  don't delete depfiles after they're read by ninja\r\n  keeprsp      don't delete @response files on success\r\n  nostatcache  don't batch stat() calls per directory and cache them\r\nmultiple modes can be enabled via -dFOO and -d BAR"@
}

/// The debugging mode that a name selects.
pub open spec fn debug_mode_named(name: Seq<char>) -> Option<NinjaDebugModes> {
    if name == "stats"@ {
        Some(NinjaDebugModes::Stats)
    } else if name == "explain"@ {
        Some(NinjaDebugModes::Explain)
    } else if name == "keepdepfile"@ {
        Some(NinjaDebugModes::Keepdepfile)
    } else if name == "keeprsp"@ {
        Some(NinjaDebugModes::Keeprsp)
    } else if name == "nostatcache"@ {
        Some(NinjaDebugModes::NostatCache)
    } else if name == "list"@ {
        Some(NinjaDebugModes::List)
    } else {
        None
    }
}

impl NinjaDebugModes {
    /// The text that lists the debugging modes, for `-d list`.
    pub fn list() -> (s: String)
        ensures
            s@ == debug_modes_list_text(),
    {
        String::from_str(
            "\r\ndebugging modes:\r\n  stats        print operation counts/timing info\r\n  explain      explain what caused a command to execute\r\n  keepdepfile  don't delete depfiles after they're read by ninja\r\n  keeprsp      don't delete @response files on success\r\n  nostatcache  don't batch stat() calls per directory and cache them\r\nmultiple modes can be enabled via -dFOO and -d BAR",
        )
    }

    /// The debugging mode named `s`; any other name is answered with the list
    /// of modes.
    pub fn parse(s: &str) -> (r: Result<Self, String>)
        ensures
            match debug_mode_named(s@) {
                Some(m) => r == Ok::<NinjaDebugModes, String>(m),
                None => r matches Err(e) && e@ == debug_modes_list_text(),
            },
    {
        if str_equals(s, "stats") {
            Ok(NinjaDebugModes::Stats)
        } else if str_equals(s, "explain") {
            Ok(NinjaDebugModes::Explain)
        } else if str_equals(s, "keepdepfile") {
            Ok(NinjaDebugModes::Keepdepfile)
        } else if str_equals(s, "keeprsp") {
            Ok(NinjaDebugModes::Keeprsp)
        } else if str_equals(s, "nostatcache") {
            Ok(NinjaDebugModes::NostatCache)
        } else if str_equals(s, "list") {
            Ok(NinjaDebugModes::List)
        } else {
            Err(Self::list())
        }
    }
}

/// The number of jobs run at once.
#[derive(Clone, Debug)]
pub struct Parallelism(pub usize);

/// The job count used when `0` is asked for: two more than the processors
/// available (at most `usize::MAX`), or 255 when that number is unknown.
pub open spec fn jobs_when_unspecified(available: Option<usize>) -> usize {
    match available {
        Some(n) => if n + 2 > usize::MAX {
            usize::MAX
        } else {
            (n + 2) as usize
        },
        None => 255,
    }
}

/// The default job count: two more than the processors available (wrapping
/// like unchecked machine addition), or 3 when that number is unknown.
pub open spec fn default_jobs(available: Option<usize>) -> usize {
    match available {
        Some(n) => vstd::wrapping::usize_specs::wrapping_add(n, 2),
        None => 3,
    }
}

impl Parallelism {
    pub const DEFAULT_UNLIMITED_JOBS: usize = 255;

    pub const DEFAULT_JOBS_COUNT: usize = 3;

    /// Reads `-j N`: a decimal job count, where `0` asks for a guess from the
    /// number of processors available (`available_parallelism`, which the
    /// caller asks the system for).
    pub fn parse(s: &str, available_parallelism: Option<usize>) -> (r: Result<Self, String>)
        ensures
            match unsigned_text_value(s@) {
                Some(v) => if v <= usize::MAX {
                    r matches Ok(p) && p.0 == (if v == 0 {
                        jobs_when_unspecified(available_parallelism)
                    } else {
                        v as usize
                    })
                } else {
                    r matches Err(e) && e@ == usize_parse_error_text(s@)
                },
                None => r matches Err(e) && e@ == usize_parse_error_text(s@),
            },
    {
        Self::from_parsed(parse_usize(s), available_parallelism)
    }

    /// The job count that a parsed `-j` value gives: `0` becomes the guess
    /// from the processors available; an error is passed on.
    pub fn from_parsed(parsed: Result<usize, String>, available_parallelism: Option<usize>) -> (r:
        Result<Self, String>)
        ensures
            match parsed {
                Ok(n) => r matches Ok(p) && p.0 == (if n == 0 {
                    jobs_when_unspecified(available_parallelism)
                } else {
                    n
                }),
                Err(e) => r matches Err(f) && f@ == e@,
            },
    {
        let mut n = match parsed {
            Ok(n) => n,
            Err(e) => {
                return Err(e);
            },
        };
        if n == 0 {
            n = match available_parallelism {
                Some(a) => a.saturating_add(2),
                None => Self::DEFAULT_UNLIMITED_JOBS,
            };
        }
        Ok(Parallelism(n))
    }

    /// The job count when `-j` is not given.
    pub fn from_available_parallelism(available_parallelism: Option<usize>) -> (p: Self)
        ensures
            p.0 == default_jobs(available_parallelism),
    {
        let count = match available_parallelism {
            Some(n) => n.wrapping_add(2),
            None => Self::DEFAULT_JOBS_COUNT,
        };
        Parallelism(count)
    }

    /// The job count in decimal.
    pub fn to_string(&self) -> (s: String)
        ensures
            s@ == decimal_chars(self.0 as nat),
    {
        decimal_string(self.0)
    }
}

/// How many failures the build tolerates before it stops.
#[derive(Clone, Debug)]
pub struct AllowedFailures(pub usize);

/// The message for a `-k` value that is not an integer.
pub open spec fn allowed_failures_error_text(s: Seq<char>) -> Seq<char> {
    "Invalid parameter for -k "@ + s + ":"@ + i128_parse_error_text(s)
}

impl AllowedFailures {
    pub const INFINITY: usize = usize::MAX;

    pub const DEFAULT_VALUE: usize = 1;

    /// Reads `-k N`: an integer; `N <= 0` and any `N` above `usize::MAX` mean no
    /// limit (`usize::MAX`).
    pub fn parse(s: &str) -> (r: Result<Self, String>)
        ensures
            match signed_text_value(s@) {
                Some(v) => if i128::MIN <= v <= i128::MAX {
                    r matches Ok(a) && a.0 == (if v <= 0 || v > usize::MAX {
                        usize::MAX
                    } else {
                        v as usize
                    })
                } else {
                    r matches Err(e) && e@ == allowed_failures_error_text(s@)
                },
                None => r matches Err(e) && e@ == allowed_failures_error_text(s@),
            },
    {
        Self::from_parsed(s, parse_i128(s))
    }

    /// The failure limit that the integer parsed from the `-k` value `s` gives:
    /// `N <= 0` and any `N` above `usize::MAX` mean no limit; an error becomes
    /// `Invalid parameter for -k {s}:{error}`.
    pub fn from_parsed(s: &str, parsed: Result<i128, String>) -> (r: Result<Self, String>)
        ensures
            match parsed {
                Ok(n) => r matches Ok(a) && a.0 == (if n <= 0 || n > usize::MAX {
                    usize::MAX
                } else {
                    n as usize
                }),
                Err(e) => r matches Err(f) && f@ == "Invalid parameter for -k "@ + s@ + ":"@ + e@,
            },
    {
        let n = match parsed {
            Ok(n) => n,
            Err(e) => {
                let mut msg = String::from_str("Invalid parameter for -k ");
                msg.append(s);
                msg.append(":");
                msg.append(e.as_str());
                return Err(msg);
            },
        };
        if n <= 0 {
            Ok(AllowedFailures(Self::INFINITY))
        } else if n > Self::INFINITY as i128 {
            Ok(AllowedFailures(Self::INFINITY))
        } else {
            Ok(AllowedFailures(n as usize))
        }
    }

    /// The number in decimal.
    pub fn to_string(&self) -> (s: String)
        ensures
            s@ == decimal_chars(self.0 as nat),
    {
        decimal_string(self.0)
    }
}

impl Default for AllowedFailures {
    fn default() -> (a: Self)
        ensures
            a.0 == 1,
    {
        AllowedFailures(Self::DEFAULT_VALUE)
    }
}

/// The directory the build runs in, as text.
#[derive(Clone, Debug)]
pub struct WorkDirectory(pub String);

/// The tools that `-t` runs.
#[derive(Copy, Clone, Debug, PartialEq, Eq, Structural)]
pub enum NinjaTool {
    /// browse dependency graph in a web browser
    Browse,
    /// build helper for MSVC cl.exe (DEPRECATED)
    Msvc,
    /// clean built files
    Clean,
    /// list all commands required to rebuild given targets
    Commands,
    /// list all inputs required to rebuild given targets
    Inputs,
    /// print one or more sets of inputs required to build targets
    MultiInputs,
    /// show dependencies stored in the deps log
    Deps,
    /// check deps log dependencies on generated files
    MissingDeps,
    /// output graphviz dot file for targets
    Graph,
    /// show inputs/outputs for a path
    Query,
    /// list targets by their rule or depth in the DAG
    Targets,
    /// dump JSON compilation database to stdout
    Compdb,
    /// dump JSON compilation database for a given list of targets to stdout
    CompdbTargets,
    /// recompacts ninja-internal data structures
    Recompact,
    /// restats all outputs in the build log
    Restat,
    /// list all rules
    Rules,
    /// clean built files that are no longer produced by the manifest
    CleanDead,
    Urtle,
    /// print the Windows code page used by ninja
    WinCodePage,
}

} // verus!

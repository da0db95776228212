use vstd::prelude::*;
use crate::build::{BuildConfig, Edge, Verbosity};

verus! {

type ExitStatus = ();

/// Receives the progress of a build.
pub trait Status: Send {
    fn edge_added_to_plan(&mut self, edge: &Edge);

    fn edge_removed_from_plan(&mut self, edge: &Edge);

    fn build_edge_started(&mut self, edge: &Edge, start_time_millis: i64);

    fn build_edge_finished(
        &mut self,
        edge: &mut Edge,
        start_ms: i64,
        end_ms: i64,
        exit_code: ExitStatus,
        output: &str,
    );

    fn build_started(&mut self);

    fn build_finished(&mut self);

    fn new_line(&mut self);

    fn info(&mut self, msg: &str);

    fn warning(&mut self, msg: &str);

    fn error(&mut self, msg: &str);
}

/// Whether standard output is a terminal (`atty::is(atty::Stream::Stdout)`).
/// The answer depends on how the process was started, so nothing is claimed of it.
#[verifier::external_body]
fn stdout_is_tty() -> bool {
    atty::is(atty::Stream::Stdout)
}

/// The kinds of status printer.
#[derive(Copy, Clone, Debug, PartialEq, Eq, Structural)]
pub enum StatusKind {
    Interactive,
    PlainLine,
    Null,
}

/// How serious a status message is.
#[derive(Copy, Clone, Debug, PartialEq, Eq, Structural)]
pub enum MessageLevel {
    Info,
    Warning,
    Error,
}

impl StatusKind {
    /// Whether a printer of this kind reports messages of `level`: the
    /// interactive printer reports every message, the plain-line printer only
    /// errors, and the null printer nothing.
    pub fn reports(self, level: MessageLevel) -> (r: bool)
        ensures
            r == match self {
                StatusKind::Interactive => true,
                StatusKind::PlainLine => level == MessageLevel::Error,
                StatusKind::Null => false,
            },
    {
        match self {
            StatusKind::Interactive => true,
            StatusKind::PlainLine => level == MessageLevel::Error,
            StatusKind::Null => false,
        }
    }
}

pub struct StatusFactory;

impl StatusFactory {
    /// The printer a build gets: none when it is quiet, plain lines when
    /// standard output is not a terminal, the interactive printer otherwise.
    pub fn kind_for(verbosity: Verbosity, stdout_is_terminal: bool) -> (k: StatusKind)
        ensures
            k == (if verbosity == Verbosity::Quiet {
                StatusKind::Null
            } else if !stdout_is_terminal {
                StatusKind::PlainLine
            } else {
                StatusKind::Interactive
            }),
    {
        if verbosity == Verbosity::Quiet {
            return StatusKind::Null;
        }
        if !stdout_is_terminal {
            return StatusKind::PlainLine;
        }
        StatusKind::Interactive
    }

    /// The printer `config` gets, asking whether standard output is a terminal
    /// only when the build is not quiet.
    pub fn kind(config: &BuildConfig) -> (k: StatusKind)
        ensures
            config.verbosity == Verbosity::Quiet ==> k == StatusKind::Null,
            config.verbosity != Verbosity::Quiet ==> k != StatusKind::Null,
    {
        if config.verbosity == Verbosity::Quiet {
            StatusKind::Null
        } else {
            Self::kind_for(config.verbosity, stdout_is_tty())
        }
    }

    /// Creates the status printer for `config`.
    pub fn create(config: &BuildConfig) -> Box<dyn Status> {
        Self::create_of_kind(Self::kind(config), config)
    }

    /// Creates a status printer of the given kind.
    pub fn create_of_kind(kind: StatusKind, config: &BuildConfig) -> Box<dyn Status> {
        match kind {
            StatusKind::Null => Box::new(NullStatus::new()),
            StatusKind::PlainLine => Box::new(PlainLineStatus::new()),
            StatusKind::Interactive => Box::new(InteractiveStatus::new(config)),
        }
    }
}

/// The printer for an interactive terminal.
pub struct InteractiveStatus;

impl InteractiveStatus {
    pub fn new(_config: &BuildConfig) -> Self {
        InteractiveStatus
    }
}

impl Status for InteractiveStatus {
    fn edge_added_to_plan(&mut self, edge: &Edge) {
    }

    fn edge_removed_from_plan(&mut self, edge: &Edge) {
    }

    fn build_edge_started(&mut self, edge: &Edge, start_time_millis: i64) {
    }

    fn build_edge_finished(
        &mut self,
        edge: &mut Edge,
        start_ms: i64,
        end_ms: i64,
        exit_code: ExitStatus,
        output: &str,
    ) {
    }

    fn build_started(&mut self) {
    }

    fn build_finished(&mut self) {
    }

    fn new_line(&mut self) {
    }

    fn info(&mut self, msg: &str) {
    }

    fn warning(&mut self, msg: &str) {
    }

    fn error(&mut self, msg: &str) {
    }
}

/// The printer for output that is not a terminal.
pub struct PlainLineStatus;

impl PlainLineStatus {
    pub fn new() -> Self {
        PlainLineStatus
    }
}

impl Status for PlainLineStatus {
    fn edge_added_to_plan(&mut self, edge: &Edge) {
    }

    fn edge_removed_from_plan(&mut self, edge: &Edge) {
    }

    fn build_edge_started(&mut self, edge: &Edge, start_time_millis: i64) {
    }

    fn build_edge_finished(
        &mut self,
        edge: &mut Edge,
        start_ms: i64,
        end_ms: i64,
        exit_code: ExitStatus,
        output: &str,
    ) {
    }

    fn build_started(&mut self) {
    }

    fn build_finished(&mut self) {
    }

    fn new_line(&mut self) {
    }

    fn info(&mut self, msg: &str) {
    }

    fn warning(&mut self, msg: &str) {
    }

    fn error(&mut self, msg: &str) {
    }
}

/// The printer of a quiet build: it reports nothing.
pub struct NullStatus;

impl NullStatus {
    pub fn new() -> Self {
        NullStatus
    }
}

impl Status for NullStatus {
    fn edge_added_to_plan(&mut self, edge: &Edge) {
    }

    fn edge_removed_from_plan(&mut self, edge: &Edge) {
    }

    fn build_edge_started(&mut self, edge: &Edge, start_time_millis: i64) {
    }

    fn build_edge_finished(
        &mut self,
        edge: &mut Edge,
        start_ms: i64,
        end_ms: i64,
        exit_code: ExitStatus,
        output: &str,
    ) {
    }

    fn build_started(&mut self) {
    }

    fn build_finished(&mut self) {
    }

    fn new_line(&mut self) {
    }

    fn info(&mut self, msg: &str) {
    }

    fn warning(&mut self, msg: &str) {
    }

    fn error(&mut self, msg: &str) {
    }
}

} // verus!

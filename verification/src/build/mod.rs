use vstd::prelude::*;

verus! {

/// A step of the build graph.
pub struct Edge;

/// How much the build reports.
#[derive(Copy, Clone, Debug, PartialEq, Eq, Structural)]
pub enum Verbosity {
    Quiet,
    NoStatusUpdate,
    Normal,
    Verbose,
}

/// The settings of a build that the library reads. The maximum load average (a
/// floating-point setting) and the depfile parser options are kept by the
/// program beside this value.
#[derive(Debug, Clone)]
pub struct BuildConfig {
    pub verbosity: Verbosity,
    pub dry_run: bool,
    pub parallelism: i32,
    pub disable_jobserver_client: bool,
    pub failures_allowed: i32,
}

impl Default for BuildConfig {
    fn default() -> (c: Self)
        ensures
            c.verbosity == Verbosity::Normal,
            !c.dry_run,
            c.parallelism == 1,
            !c.disable_jobserver_client,
            c.failures_allowed == 1,
    {
        BuildConfig {
            verbosity: Verbosity::Normal,
            dry_run: false,
            parallelism: 1,
            disable_jobserver_client: false,
            failures_allowed: 1,
        }
    }
}

} // verus!

//! Verified core of a small suite of DJ music-library tools: path templates,
//! tag normalization, quality scoring, import classification, library
//! reorganization plans, duplicate grouping, analysis reports, and the
//! decisions of the local web UI.

use vstd::prelude::*;

pub mod cache;
pub mod config;
pub mod dedup;
pub mod group;
pub mod import;
pub mod paths;
pub mod quality;
pub mod reorg;
pub mod report;
pub mod scan;
pub mod server;
pub mod sorting;
pub mod tags;
pub mod target;
pub mod template;
pub mod text;

verus! {

/// Errors that map onto distinct CLI exit codes: usage problems exit 2,
/// runtime problems exit 1.
#[derive(Debug)]
pub enum Error {
    Usage(String),
    Runtime(String),
}

impl Error {
    /// The exit code the CLI reports for this error.
    pub fn exit_code(&self) -> (code: i32)
        ensures
            code == (match self {
                Error::Usage(_) => 2i32,
                Error::Runtime(_) => 1i32,
            }),
    {
        match self {
            Error::Usage(_) => 2,
            Error::Runtime(_) => 1,
        }
    }

    /// The message the error is shown with.
    pub fn message(&self) -> (m: &str)
        ensures
            m@ == (match self {
                Error::Usage(s) => s@,
                Error::Runtime(s) => s@,
            }),
    {
        match self {
            Error::Usage(s) => s.as_str(),
            Error::Runtime(s) => s.as_str(),
        }
    }
}

/// A usage error with the given message.
pub fn usage(msg: String) -> (e: Error)
    ensures
        e == Error::Usage(msg),
{
    Error::Usage(msg)
}

/// What a library command does: analyze (and write a plan) or execute.
#[derive(Debug, Clone, Copy, PartialEq, Eq, Structural)]
pub enum RunMode {
    Analyze,
    Execute,
}

/// The refusal of `--from` without `--execute`.
pub open spec fn from_without_execute_msg() -> Seq<char> {
    "--from only makes sense together with --execute"@
}

/// The mode a command runs in: executing when asked to, analyzing
/// otherwise; a plan given with `--from` only makes sense together with
/// `--execute` (a usage error otherwise).
pub fn run_mode(execute: bool, from_given: bool) -> (r: Result<RunMode, Error>)
    ensures
        (from_given && !execute) <==> r is Err,
        r matches Err(e) ==> e matches Error::Usage(m) && m@ == from_without_execute_msg(),
        r matches Ok(m) ==> m == (if execute {
            RunMode::Execute
        } else {
            RunMode::Analyze
        }),
{
    if from_given && !execute {
        Err(Error::Usage("--from only makes sense together with --execute".to_owned()))
    } else if execute {
        Ok(RunMode::Execute)
    } else {
        Ok(RunMode::Analyze)
    }
}

/// Progress / output events emitted by core operations. The terminal
/// implementation draws progress bars; the web server forwards them.
#[derive(Debug)]
pub enum Event {
    /// a new progress phase begins with `total` items (any previous phase ends)
    Start(u64),
    /// one item of the current phase finished; the string names it
    Step(String),
    /// an informational output line (terminal: stdout)
    Line(String),
    /// a warning (terminal: stderr)
    Warn(String),
}

} // verus!

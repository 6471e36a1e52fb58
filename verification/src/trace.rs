use vstd::prelude::*;
use vstd::std_specs::convert::FromSpecImpl;
use crate::text::{begins_with, copy_texts, is_absolute};

verus! {

/// `std::io::Error`: what went wrong in an input or output operation.
/// Nothing is known of what it holds.
#[verifier::external_type_specification]
#[verifier::external_body]
pub struct ExIoError(std::io::Error);

/// `serde_json::Error`: what went wrong while JSON was written or read.
/// Nothing is known of what it holds.
#[verifier::external_type_specification]
#[verifier::external_body]
pub struct ExJsonError(serde_json::Error);

/// One observed process invocation: who ran, where, and with which arguments.
#[derive(Debug, PartialEq, Eq)]
pub struct Trace {
    pub pid: usize,
    pub cwd: String,
    pub cmd: Vec<String>,
}

/// What a `Trace` holds, as mathematical values.
pub ghost struct TraceView {
    pub pid: usize,
    pub cwd: Seq<char>,
    pub cmd: Seq<Seq<char>>,
}

impl TraceView {
    /// A record names a program to run and an absolute working directory.
    pub open spec fn well_formed(self) -> bool {
        self.cmd.len() > 0 && is_absolute(self.cwd)
    }
}

impl View for Trace {
    type V = TraceView;

    open spec fn view(&self) -> TraceView {
        TraceView { pid: self.pid, cwd: self.cwd@, cmd: self.cmd.deep_view() }
    }
}

/// Why a stored record could not be written or read back.
#[derive(Debug)]
pub enum TraceError {
    /// The storage could not be read or written.
    Io(std::io::Error),
    /// The stored content is not a complete record.
    Json(serde_json::Error),
}

impl From<std::io::Error> for TraceError {
    fn from(err: std::io::Error) -> (r: TraceError) {
        TraceError::Io(err)
    }
}

impl FromSpecImpl<std::io::Error> for TraceError {
    open spec fn obeys_from_spec() -> bool {
        true
    }

    open spec fn from_spec(err: std::io::Error) -> TraceError {
        TraceError::Io(err)
    }
}

impl From<serde_json::Error> for TraceError {
    fn from(err: serde_json::Error) -> (r: TraceError) {
        TraceError::Json(err)
    }
}

impl FromSpecImpl<serde_json::Error> for TraceError {
    open spec fn obeys_from_spec() -> bool {
        true
    }

    open spec fn from_spec(err: serde_json::Error) -> TraceError {
        TraceError::Json(err)
    }
}

impl Trace {
    /// Makes the record of an invocation from the process id, the working
    /// directory and the argument vector that were captured for it. There is
    /// a record exactly where there is a program name and the directory is
    /// absolute.
    pub fn create(pid: usize, cwd: &str, args: &Vec<String>) -> (r: Option<Trace>)
        ensures
            r is Some <==> args.len() > 0 && is_absolute(cwd@),
            r matches Some(t) ==> t@ == (TraceView {
                pid,
                cwd: cwd@,
                cmd: args.deep_view(),
            }) && t@.well_formed(),
    {
        if args.len() == 0 || !begins_with(cwd, '/') {
            return None;
        }
        Some(Trace { pid, cwd: String::from_str(cwd), cmd: copy_texts(args) })
    }

    /// Whether the record names a program and an absolute working directory.
    pub fn is_well_formed(&self) -> (r: bool)
        ensures
            r == self@.well_formed(),
    {
        self.cmd.len() > 0 && begins_with(self.cwd.as_str(), '/')
    }

    /// A copy of the record.
    pub fn duplicate(&self) -> (r: Trace)
        ensures
            r@ == self@,
    {
        Trace { pid: self.pid, cwd: self.cwd.clone(), cmd: copy_texts(&self.cmd) }
    }
}

} // verus!

//! Classification of external process executions.
//!
//! A module runs as a child process whose sole argument is the serialized
//! notification payload. The launch-and-wait step happens outside the
//! library; what it observed comes back as a [`ProcessReport`], and the
//! functions here decide what that observation means.

use vstd::prelude::*;
use crate::runtime::Resolution;

verus! {

/// What the process that owns the runtime observed of one execution.
#[derive(Debug)]
pub enum ProcessReport {
    /// The child exited with this status code.
    Exited(i32),
    /// The child was terminated without an exit code.
    Terminated,
    /// The child could not be launched; the message names the cause.
    FailedToLaunch(String),
}

/// A typed execution failure, delivered through a task's result handle.
#[derive(Debug)]
pub enum ExecutionError {
    /// The payload bytes were not valid UTF-8 and could not form an argument.
    InvalidInput,
    /// The executable could not be launched; the message names the cause.
    LaunchFailure(String),
    /// The child exited with this nonzero status code.
    NonZeroExit(i32),
    /// The child was terminated without an exit code.
    Terminated,
}

impl Clone for ExecutionError {
    fn clone(&self) -> (r: Self)
        ensures
            r == *self,
    {
        match self {
            ExecutionError::InvalidInput => ExecutionError::InvalidInput,
            ExecutionError::LaunchFailure(m) => ExecutionError::LaunchFailure(m.clone()),
            ExecutionError::NonZeroExit(c) => ExecutionError::NonZeroExit(*c),
            ExecutionError::Terminated => ExecutionError::Terminated,
        }
    }
}

/// Classifies one observed execution: exit status zero is success, any
/// other exit status or a launch failure is a typed error.
pub fn classify_report(report: ProcessReport) -> (r: Result<(), ExecutionError>)
    ensures
        report matches ProcessReport::Exited(c) ==> r == (if c == 0 {
            Ok::<(), ExecutionError>(())
        } else {
            Err::<(), ExecutionError>(ExecutionError::NonZeroExit(c))
        }),
        report is Terminated ==> r == Err::<(), ExecutionError>(ExecutionError::Terminated),
        report matches ProcessReport::FailedToLaunch(m) ==> r == Err::<(), ExecutionError>(
            ExecutionError::LaunchFailure(m),
        ),
{
    match report {
        ProcessReport::Exited(c) => {
            if c == 0 {
                Ok(())
            } else {
                Err(ExecutionError::NonZeroExit(c))
            }
        },
        ProcessReport::Terminated => Err(ExecutionError::Terminated),
        ProcessReport::FailedToLaunch(m) => Err(ExecutionError::LaunchFailure(m)),
    }
}

/// The resolution a worker delivers for one observed execution: success
/// exactly on exit status zero, otherwise the matching typed failure.
pub fn resolution_of_report(report: ProcessReport) -> (r: Resolution)
    ensures
        report matches ProcessReport::Exited(c) ==> r == (if c == 0 {
            Resolution::Success
        } else {
            Resolution::Failure(ExecutionError::NonZeroExit(c))
        }),
        report is Terminated ==> r == Resolution::Failure(ExecutionError::Terminated),
        report matches ProcessReport::FailedToLaunch(m) ==> r == Resolution::Failure(
            ExecutionError::LaunchFailure(m),
        ),
{
    match classify_report(report) {
        Ok(()) => Resolution::Success,
        Err(e) => Resolution::Failure(e),
    }
}

/// The executor of one module: validates the payload argument; the launch
/// itself is the owning process's step.
#[derive(Debug)]
pub struct ModuleRunner;

impl ModuleRunner {
    pub fn new() -> (r: Result<ModuleRunner, ExecutionError>)
        ensures
            r is Ok,
    {
        Ok(ModuleRunner)
    }

    /// Turns payload bytes into the child's string argument. Fails exactly
    /// on bytes that are not valid UTF-8.
    pub fn prepare_input(&self, input: Vec<u8>) -> (r: Result<String, ExecutionError>)
        ensures
            r is Ok <==> vstd::utf8::valid_utf8(input@),
            r is Ok ==> r.unwrap()@ == vstd::utf8::decode_utf8(input@),
            r is Err ==> r == Err::<String, ExecutionError>(ExecutionError::InvalidInput),
    {
        match bytes_to_string(input) {
            Ok(s) => Ok(s),
            Err(()) => Err(ExecutionError::InvalidInput),
        }
    }
}

/// Relies on `String::from_utf8`: it returns `Ok` exactly on valid UTF-8
/// input, and the returned string holds the characters those bytes encode.
#[verifier::external_body]
fn bytes_to_string(input: Vec<u8>) -> (r: Result<String, ()>)
    ensures
        r is Ok <==> vstd::utf8::valid_utf8(input@),
        r is Ok ==> r.unwrap()@ == vstd::utf8::decode_utf8(input@),
{
    match String::from_utf8(input) {
        Ok(s) => Ok(s),
        Err(_) => Err(()),
    }
}

} // verus!

//! The diagnostic logger's policy. The sink that writes records to the error
//! stream lives with the program, which owns the process's streams.
use vstd::prelude::*;

verus! {

/// A logger that passes every record on to the error stream.
#[derive(Debug, Clone, Copy, PartialEq, Eq, Structural)]
pub struct StdErrLogger;

impl StdErrLogger {
    pub fn new() -> (r: StdErrLogger)
        ensures
            r == StdErrLogger,
    {
        StdErrLogger
    }

    /// Whether a record is written out: every record is.
    pub fn enabled(&self) -> (r: bool)
        ensures
            r,
    {
        true
    }
}

} // verus!

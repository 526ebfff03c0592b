//! How a run of a program ended, and what it said: the values the judges
//! read. Running the program is the caller's business.

use vstd::prelude::*;

verus! {

/// How a run ended.
#[derive(Debug, PartialEq, Eq, Structural)]
pub enum Ending {
    Code(i32),
    /// Killed by a signal, which on Unix is how a panic-free crash shows up.
    Signal,
    /// Killed by the grader. Not terminating is left to grader policy, so it
    /// is a failure here by choice rather than by contract.
    Timeout,
}

/// What a run wrote and how it ended.
#[derive(Debug)]
pub struct Observation {
    pub stdout: Vec<u8>,
    pub stderr: Vec<u8>,
    pub ending: Ending,
}

impl Observation {
    /// Whether the run exited with code zero.
    pub fn exited_zero(&self) -> (r: bool)
        ensures
            r == (self.ending == Ending::Code(0)),
    {
        match self.ending {
            Ending::Code(code) => code == 0,
            _ => false,
        }
    }

    /// Whether the run exited with a code other than zero; a signal or a
    /// timeout is neither.
    pub fn exited_non_zero(&self) -> (r: bool)
        ensures
            r == (self.ending matches Ending::Code(code) && code != 0),
    {
        match self.ending {
            Ending::Code(code) => code != 0,
            _ => false,
        }
    }
}

} // verus!

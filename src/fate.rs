//! What becomes of a process when it panics.
use vstd::prelude::*;

verus! {

/// The fate of the process when a panic happens.
#[derive(Debug, Copy, Clone, Eq, PartialEq, Structural)]
pub enum Fate {
    /// Carry on.
    Continue,
    /// Exit with the given exit code.
    Exit(i32),
    /// Kill the process with SIGABRT.
    Abort,
}

impl Default for Fate {
    fn default() -> (r: Fate)
        ensures
            r == Fate::Continue,
    {
        Fate::Continue
    }
}

} // verus!

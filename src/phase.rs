//! The coarse, totally ordered epochs of an image build.
use vstd::prelude::*;

verus! {

/// A phase of the build. Every feature belongs to exactly one phase, and
/// every feature of a phase is ordered before every feature of a later one.
#[derive(Debug, Clone, Copy, PartialEq, Eq, Structural)]
pub enum Phase {
    /// Start of the build; the items that the operating system always has
    /// belong here.
    Init,
    /// Installation of OS packages.
    OsPackage,
    /// Everything else that a layer declares.
    Compile,
    /// End of the build; items found only after the build are ordered after
    /// it.
    End,
}

/// The number of phases.
pub const PHASE_COUNT: usize = 4;

impl Phase {
    /// The position of the phase in build order.
    pub open spec fn spec_index(self) -> nat {
        match self {
            Phase::Init => 0,
            Phase::OsPackage => 1,
            Phase::Compile => 2,
            Phase::End => 3,
        }
    }

    /// The position of the phase in build order.
    pub fn index(self) -> (r: usize)
        ensures
            r == self.spec_index(),
            r < PHASE_COUNT,
    {
        match self {
            Phase::Init => 0,
            Phase::OsPackage => 1,
            Phase::Compile => 2,
            Phase::End => 3,
        }
    }

    /// The phase at a position in build order.
    pub open spec fn spec_from_index(i: nat) -> Phase {
        if i == 0 {
            Phase::Init
        } else if i == 1 {
            Phase::OsPackage
        } else if i == 2 {
            Phase::Compile
        } else {
            Phase::End
        }
    }
}

} // verus!

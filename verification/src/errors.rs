use vstd::prelude::*;

verus! {

/// What the library refuses.
#[derive(Clone, Copy, Debug, PartialEq, Eq, Structural)]
pub enum Error {
    /// The start and the end toolchain of an experiment are the same.
    SameToolchains,
    /// An experiment of that name is already stored.
    DuplicateExperiment,
    /// A stored status is none of the six status names.
    UnknownStatus,
    /// A stored mode is none of the four mode names.
    UnknownMode,
    /// A stored lint cap is none of the four lint cap names.
    UnknownCapLints,
    /// A stored outcome is none of the five outcome names.
    UnknownTestResult,
    /// An experiment comes with a number of skip flags that is not the
    /// number of its packages.
    SkipFlagsMismatch,
}

} // verus!

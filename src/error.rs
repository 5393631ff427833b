use vstd::prelude::*;

verus! {

/// Failures that the library reports to its caller.
#[derive(Debug, Clone, PartialEq, Eq)]
pub enum WakalyzeError {
    /// A month was not written as `YYYY/MM`.
    InvalidMonth,
    /// A week number outside 1 to 6.
    InvalidWeek,
    /// A week whose first day falls after the end of the month.
    WeekOutOfRange(u32),
    /// No API key was configured.
    MissingAuth,
    /// No user was configured.
    MissingUser,
    /// The gap threshold was not positive.
    InvalidMaxGap,
    /// Two settings that exclude each other were both given.
    ConflictingFlags(String),
    /// A settings update that changes nothing.
    NothingToUpdate,
}

} // verus!

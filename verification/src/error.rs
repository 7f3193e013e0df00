use vstd::prelude::*;

verus! {

/// The failure kinds the review core and its surroundings report.
/// Failures of outside libraries are wrapped with their message passed
/// through unchanged; domain failures carry their own variant.
#[derive(Debug, Clone, PartialEq)]
pub enum TuicrError {
    Git(String),
    Io(String),
    Serialization(String),
    NotARepository,
    NoChanges,
    Terminal(String),
    CorruptedSession(String),
    SessionNotFound(String),
    Clipboard(String),
}

} // verus!

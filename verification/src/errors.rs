use vstd::prelude::*;

verus! {

/// The failures an operation on a model can report.
#[derive(Clone, Copy, Debug, PartialEq, Eq, Structural)]
pub enum ChampionError {
    /// An empty training string was fed to the model: a caller bug.
    EmptyInputError,
    /// Generation was asked of a model with no learned transitions.
    NoDataAvailable,
    /// Generation reached a character with no outgoing edges: the
    /// transition table was corrupted or tampered with.
    InvariantViolation,
    /// A snapshot could not be parsed back into a transition table.
    MalformedSnapshotError,
}

} // verus!

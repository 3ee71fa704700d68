use vstd::prelude::*;

verus! {

/// A State represents the answer given for a character in an attempt.
#[derive(Clone, Copy, Debug, PartialEq, Eq, Structural)]
pub enum State {
    /// Letter is correctly placed.
    Yes,
    /// Letter is in the answer, but elsewhere.
    Meh,
    /// Letter is not in the answer (or not that many times).
    No,
}

/// A States contains the State of each individual character of an attempt.
pub type States = Vec<State>;

} // verus!

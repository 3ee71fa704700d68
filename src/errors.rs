use vstd::prelude::*;

use crate::answers::Answer;
use crate::tests::Test;

verus! {

/// Errors raised while deriving feedback or evaluating attempts.
#[derive(Debug)]
pub enum Error {
    /// Two answers for one test contradict each other.
    IncompatibleAnswers(Answer, Answer),
    /// Expected size, found size, incriminated word.
    InvalidSize(usize, usize, String),
    /// Invalid test, incriminated word.
    UnexpectedTest(Test, String),
}

/// Errors raised while building a dictionary.
#[derive(Debug)]
pub enum DictError {
    /// Expected size, found size, incriminated word.
    InconsistentSize(usize, usize, String),
    /// Incriminated word count and value.
    DuplicateWord(usize, String),
    /// Answer list is empty.
    MissingAnswers,
    /// Incriminated character and word.
    UnauthorizedCharacter(char, String),
}

} // verus!

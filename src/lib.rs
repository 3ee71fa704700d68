//! Solver core for a word-guessing game: feedback derivation, three-valued
//! predicate answers, dictionary filtering and next-guess selection.
pub mod answers;
pub mod attempt;
pub mod dict;
pub mod errors;
pub mod game;
pub mod options;
mod parallel;
pub mod rules;
pub mod state;

pub use answers::{Answer, Answers};
pub use dict::Dict;
pub use errors::{DictError, Error};
pub use game::{Game, Guess};
pub use options::Options;
pub use state::{State, States};
pub use tests::{Test, TestSuite, TestView};

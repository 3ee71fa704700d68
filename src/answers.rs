use vstd::prelude::*;

use crate::dict::Dict;
use crate::errors::Error;
use crate::parallel::par_map;
use crate::tests::{passes, Test, TestSuite};

verus! {

/// Three-valued verdict of a test given the evidence seen so far.
#[derive(Clone, Copy, Debug, PartialEq, Eq, Structural)]
pub enum Answer {
    Unknown,
    Yes,
    No,
}

/// Answers of a test suite for a plain word: `Yes` for each test it
/// passes, `No` for the others.
#[derive(Debug, PartialEq)]
pub struct Answers(pub Vec<Answer>);

/// Answers of a test suite for each word of a dictionary.
pub type DictAnswers = Vec<Answers>;

/// The answers of `tests` for the word `w`.
pub open spec fn answers_of(w: Seq<char>, tests: Seq<Test>) -> Seq<Answer> {
    Seq::new(
        tests.len(),
        |k: int|
            if passes(tests[k]@, w) {
                Answer::Yes
            } else {
                Answer::No
            },
    )
}

/// Merge of two answers; `None` when they contradict each other.
pub open spec fn merged(a: Answer, b: Answer) -> Option<Answer> {
    match (a, b) {
        (Answer::Unknown, _) => Some(b),
        (_, Answer::Unknown) => Some(a),
        (Answer::Yes, Answer::Yes) => Some(Answer::Yes),
        (Answer::No, Answer::No) => Some(Answer::No),
        _ => None,
    }
}

impl Answer {
    /// Merge two answers: `Unknown` is the identity, equal answers stay,
    /// `Yes` against `No` is a contradiction.
    pub fn merge(self, rhs: Answer) -> (r: Result<Answer, Error>)
        ensures
            match merged(self, rhs) {
                Some(a) => r == Ok::<Answer, Error>(a),
                None => r == Err::<Answer, Error>(Error::IncompatibleAnswers(self, rhs)),
            },
    {
        match self {
            Answer::Unknown => Ok(rhs),
            Answer::Yes => match rhs {
                Answer::Unknown => Ok(self),
                Answer::Yes => Ok(self),
                Answer::No => Err(Error::IncompatibleAnswers(self, rhs)),
            },
            Answer::No => match rhs {
                Answer::Unknown => Ok(self),
                Answer::Yes => Err(Error::IncompatibleAnswers(self, rhs)),
                Answer::No => Ok(self),
            },
        }
    }
}

impl Answers {
    /// Generate answers for all tests in a test-suite for a given word.
    pub fn of_word(word: &str, tests: &TestSuite) -> (r: Self)
        ensures
            r.0@ == answers_of(word@, tests@),
    {
        let mut answers: Vec<Answer> = Vec::new();
        let mut k: usize = 0;
        while k < tests.len()
            invariant
                k <= tests@.len(),
                answers@ == answers_of(word@, tests@).subrange(0, k as int),
            decreases tests@.len() - k,
        {
            let answer = if tests[k].run(word) {
                Answer::Yes
            } else {
                Answer::No
            };
            answers.push(answer);
            k = k + 1;
            proof {
                assert(answers@ =~= answers_of(word@, tests@).subrange(0, k as int));
            }
        }
        proof {
            assert(answers@ =~= answers_of(word@, tests@));
        }
        Answers(answers)
    }

    /// Generate answers for all tests in a test-suite for each word of a
    /// dictionary, answers first, in parallel over the words.
    pub fn of_dict(dict: &Dict, tests: &TestSuite) -> (r: DictAnswers)
        ensures
            r@.len() == dict.words().len(),
            forall|i: int| 0 <= i < r@.len() ==> (#[trigger] r@[i]).0@ == answers_of(dict.words()[i], tests@),
    {
        let of_word = |w: &String| -> (a: Answers)
            ensures
                a.0@ == answers_of(w@, tests@),
            { Answers::of_word(w.as_str(), tests) };
        let mut dict_answers = par_map(&dict.answers, of_word);
        let mut others = par_map(&dict.allowed, of_word);
        let ghost a = dict_answers@;
        let ghost b = others@;
        dict_answers.append(&mut others);
        proof {
            let ws = dict.words();
            assert forall|i: int| 0 <= i < dict_answers@.len() implies (#[trigger] dict_answers@[i]).0@ == answers_of(ws[i], tests@) by {
                if i < a.len() {
                    assert(dict_answers@[i] == a[i]);
                    assert(ws[i] == dict.answers@[i]@);
                } else {
                    assert(dict_answers@[i] == b[i - a.len()]);
                    assert(ws[i] == dict.allowed@[i - a.len()]@);
                }
            }
        }
        dict_answers
    }

    /// Merge two answer vectors position by position, up to the shorter
    /// one; the first contradiction is the error.
    pub fn merge(&self, rhs: &Answers) -> (r: Result<Answers, Error>)
        ensures
            ({
                let n = if self.0@.len() <= rhs.0@.len() { self.0@.len() } else { rhs.0@.len() };
                &&& (r is Ok <==> forall|k: int| 0 <= k < n ==> (#[trigger] merged(self.0@[k], rhs.0@[k])) is Some)
                &&& (r matches Ok(m) ==> m.0@.len() == n && forall|k: int| 0 <= k < n ==> Some(#[trigger] m.0@[k]) == merged(self.0@[k], rhs.0@[k]))
                &&& (r matches Err(e) ==> exists|k: int| 0 <= k < n && (#[trigger] merged(self.0@[k], rhs.0@[k])) is None && e == Error::IncompatibleAnswers(self.0@[k], rhs.0@[k]))
            }),
    {
        let n = if self.0.len() <= rhs.0.len() { self.0.len() } else { rhs.0.len() };
        let mut out: Vec<Answer> = Vec::new();
        let mut k: usize = 0;
        while k < n
            invariant
                n <= self.0@.len(),
                n <= rhs.0@.len(),
                k <= n,
                out@.len() == k,
                forall|j: int| 0 <= j < k ==> Some(#[trigger] out@[j]) == merged(self.0@[j], rhs.0@[j]),
            decreases n - k,
        {
            match self.0[k].merge(rhs.0[k]) {
                Ok(a) => out.push(a),
                Err(e) => {
                    proof {
                        let kk = k as int;
                        assert(merged(self.0@[kk], rhs.0@[kk]) is None);
                        assert(e == Error::IncompatibleAnswers(self.0@[kk], rhs.0@[kk]));
                    }
                    return Err(e);
                },
            }
            k = k + 1;
        }
        proof {
            assert forall|j: int| 0 <= j < n implies (#[trigger] merged(self.0@[j], rhs.0@[j])) is Some by {
                assert(Some(out@[j]) == merged(self.0@[j], rhs.0@[j]));
            }
        }
        Ok(Answers(out))
    }
}

/// `Unknown` is the identity of the merge, `Yes` and `No` are idempotent,
/// and `Yes` merged with `No` (in either order) is a contradiction.
pub proof fn lemma_merge_table(x: Answer)
    ensures
        merged(Answer::Unknown, x) == Some(x),
        merged(x, Answer::Unknown) == Some(x),
        merged(x, x) == Some(x),
        merged(Answer::Yes, Answer::No) is None,
        merged(Answer::No, Answer::Yes) is None,
{
}

/// The merge is commutative.
pub proof fn lemma_merge_commutative(x: Answer, y: Answer)
    ensures
        merged(x, y) == merged(y, x),
{
}

/// The merge is associative: folding answers in any grouping gives the same
/// result, a contradiction included.
pub proof fn lemma_merge_associative(x: Answer, y: Answer, z: Answer)
    ensures
        (match merged(x, y) {
            Some(xy) => merged(xy, z),
            None => None,
        }) == (match merged(y, z) {
            Some(yz) => merged(x, yz),
            None => None,
        }),
{
}

} // verus!

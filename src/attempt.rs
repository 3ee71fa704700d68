use vstd::prelude::*;

use crate::answers::Answer;
use crate::errors::Error;
use crate::state::{State, States};
use crate::tests::{chars_of, count_letter, count_of, Test, TestView};

verus! {

/// An attempt represents a word tested in a game and the state of each
/// character of this word.
pub struct Attempt<'a>(pub &'a str, pub States);

/// Attempts contains all the attempts of a given game.
pub type Attempts<'a> = Vec<Attempt<'a>>;

/// Number of positions `k < n` where the guess `g` holds `c` and is not
/// correctly placed against the answer `a`.
pub open spec fn misplaced_count(g: Seq<char>, a: Seq<char>, c: char, n: int) -> nat
    decreases n,
{
    if n <= 0 {
        0
    } else {
        misplaced_count(g, a, c, n - 1) + if g[n - 1] == c && g[n - 1] != a[n - 1] {
            1nat
        } else {
            0nat
        }
    }
}

/// Number of positions `k < n` where the answer `a` holds `c` and the guess
/// `g` did not find it in place.
pub open spec fn unmatched_count(g: Seq<char>, a: Seq<char>, c: char, n: int) -> nat
    decreases n,
{
    if n <= 0 {
        0
    } else {
        unmatched_count(g, a, c, n - 1) + if a[n - 1] == c && g[n - 1] != a[n - 1] {
            1nat
        } else {
            0nat
        }
    }
}

/// Feedback for position `i` of the guess `g` against the answer `a`: a
/// misplaced letter is `Meh` as long as the answer still holds unmatched
/// copies of it not claimed by an earlier position.
pub open spec fn feedback_at(g: Seq<char>, a: Seq<char>, i: int) -> State {
    if g[i] == a[i] {
        State::Yes
    } else if misplaced_count(g, a, g[i], i) < unmatched_count(g, a, g[i], a.len() as int) {
        State::Meh
    } else {
        State::No
    }
}

/// Feedback for the whole guess `g` against the answer `a`.
pub open spec fn feedback(g: Seq<char>, a: Seq<char>) -> Seq<State> {
    Seq::new(g.len(), |i: int| feedback_at(g, a, i))
}

/// Number of positions `k < n` holding `c` whose state is not `No`.
pub open spec fn confirmed_count(w: Seq<char>, st: Seq<State>, c: char, n: int) -> nat
    decreases n,
{
    if n <= 0 {
        0
    } else {
        confirmed_count(w, st, c, n - 1) + if w[n - 1] == c && st[n - 1] != State::No {
            1nat
        } else {
            0nat
        }
    }
}

/// Position `k` of `part`, aligned at `start` in the word, is confirmed in place.
pub open spec fn aligned_yes(part: Seq<char>, w: Seq<char>, st: Seq<State>, start: int, k: int) -> bool {
    part[k] == w[start + k] && st[start + k] == State::Yes
}

/// Position `k` of `part`, aligned at `start` in the word, refutes the
/// affix: another letter is confirmed there, or its letter is there but not
/// confirmed in place.
pub open spec fn aligned_no(part: Seq<char>, w: Seq<char>, st: Seq<State>, start: int, k: int) -> bool {
    (part[k] != w[start + k] && st[start + k] == State::Yes) || (part[k] == w[start + k]
        && st[start + k] != State::Yes)
}

/// Answer of an affix test aligned at `start` in the word.
pub open spec fn affix_answer(part: Seq<char>, w: Seq<char>, st: Seq<State>, start: int) -> Answer {
    if forall|k: int| 0 <= k < part.len() ==> #[trigger] aligned_yes(part, w, st, start, k) {
        Answer::Yes
    } else if exists|k: int| 0 <= k < part.len() && #[trigger] aligned_no(part, w, st, start, k) {
        Answer::No
    } else {
        Answer::Unknown
    }
}

/// What an attempt of word `w` with feedback `st` tells of test `t`; `None`
/// when the test does not fit the word.
pub open spec fn evaluation(w: Seq<char>, st: Seq<State>, t: TestView) -> Option<Answer> {
    match t {
        TestView::At(l, p) => if p >= w.len() {
            None
        } else if st[p as int] == State::Yes {
            Some(if w[p as int] == l { Answer::Yes } else { Answer::No })
        } else {
            Some(if w[p as int] == l { Answer::No } else { Answer::Unknown })
        },
        TestView::HasAtMost(l, c) => {
            let valid = confirmed_count(w, st, l, w.len() as int);
            Some(
                if count_of(w, l) == valid {
                    Answer::Unknown
                } else if valid <= c {
                    Answer::Yes
                } else {
                    Answer::No
                },
            )
        },
        TestView::HasAtLeast(l, c) => Some(
            if count_of(w, l) < c {
                Answer::Unknown
            } else if confirmed_count(w, st, l, w.len() as int) >= c {
                Answer::Yes
            } else {
                Answer::No
            },
        ),
        TestView::HasPrefix(p) => if p.len() > w.len() {
            None
        } else {
            Some(affix_answer(p, w, st, 0))
        },
        TestView::HasSuffix(s) => if s.len() > w.len() {
            None
        } else {
            Some(affix_answer(s, w, st, w.len() - s.len()))
        },
    }
}

impl<'a> Attempt<'a> {
    /// One state per character of the word.
    pub open spec fn wf(&self) -> bool {
        self.0@.len() == self.1@.len()
    }

    /// Derive the attempt of the word `attempt` against the hidden `answer`.
    pub fn from_answer(attempt: &'a str, answer: &str) -> (r: Result<Self, Error>)
        ensures
            answer@.len() == attempt@.len() <==> r is Ok,
            r matches Ok(a) ==> a.0 == attempt && a.1@ == feedback(attempt@, answer@),
            r matches Err(e) ==> e matches Error::InvalidSize(expected, found, w) && expected
                == answer@.len() && found == attempt@.len() && w@ == attempt@,
    {
        let size = answer.unicode_len();
        let found = attempt.unicode_len();
        if found != size {
            return Err(Error::InvalidSize(size, found, attempt.to_owned()));
        }
        let g = chars_of(attempt);
        let a = chars_of(answer);
        let ghost gs = g@;
        let ghost as_ = a@;
        let mut states: Vec<State> = Vec::new();
        let mut i: usize = 0;
        while i < size
            invariant
                g@ == gs,
                a@ == as_,
                gs.len() == size,
                as_.len() == size,
                i <= size,
                states@.len() == i,
                forall|k: int| 0 <= k < i ==> #[trigger] states@[k] == feedback_at(gs, as_, k),
            decreases size - i,
        {
            let c = g[i];
            if c == a[i] {
                states.push(State::Yes);
            } else {
                let before = misplaced_before(&g, &a, c, i);
                let unmatched = misplaced_before(&a, &g, c, size);
                proof {
                    lemma_unmatched_swap(gs, as_, c, size as int);
                }
                if before < unmatched {
                    states.push(State::Meh);
                } else {
                    states.push(State::No);
                }
            }
            i = i + 1;
        }
        proof {
            assert(states@ =~= feedback(gs, as_));
        }
        Ok(Attempt(attempt, states))
    }

    /// What this attempt tells of `test`, from the guessed word and its
    /// feedback alone.
    pub fn answers(&self, test: &Test) -> (r: Result<Answer, Error>)
        requires
            self.wf(),
        ensures
            match evaluation(self.0@, self.1@, test@) {
                Some(a) => r == Ok::<Answer, Error>(a),
                None => r matches Err(e) && e matches Error::UnexpectedTest(t, w) && t == *test
                    && w@ == self.0@,
            },
    {
        let states = &self.1;
        let w = chars_of(self.0);
        let n = w.len();
        match test {
            Test::At(tl, tp) => {
                if *tp >= n {
                    return Err(Error::UnexpectedTest(test.clone(), self.0.to_owned()));
                }
                let letter = w[*tp];
                match states[*tp] {
                    State::Yes => {
                        if *tl == letter {
                            Ok(Answer::Yes)
                        } else {
                            Ok(Answer::No)
                        }
                    },
                    State::Meh | State::No => {
                        if *tl == letter {
                            Ok(Answer::No)
                        } else {
                            Ok(Answer::Unknown)
                        }
                    },
                }
            },
            Test::HasAtMost(tl, tc) => {
                let occurences = count_letter(&w, *tl);
                let valid_occurences = confirmed(&w, states, *tl);
                if occurences == valid_occurences {
                    Ok(Answer::Unknown)
                } else if valid_occurences <= *tc as usize {
                    Ok(Answer::Yes)
                } else {
                    Ok(Answer::No)
                }
            },
            Test::HasAtLeast(tl, tc) => {
                let letter_count = count_letter(&w, *tl);
                if letter_count < *tc as usize {
                    Ok(Answer::Unknown)
                } else if confirmed(&w, states, *tl) >= *tc as usize {
                    Ok(Answer::Yes)
                } else {
                    Ok(Answer::No)
                }
            },
            Test::HasPrefix(prefix) => {
                let p = chars_of(prefix.as_str());
                if p.len() > n {
                    Err(Error::UnexpectedTest(test.clone(), self.0.to_owned()))
                } else {
                    Ok(affix(&p, &w, states, 0))
                }
            },
            Test::HasSuffix(suffix) => {
                let s = chars_of(suffix.as_str());
                if s.len() > n {
                    return Err(Error::UnexpectedTest(test.clone(), self.0.to_owned()));
                }
                Ok(affix(&s, &w, states, n - s.len()))
            },
        }
    }
}

/// Number of occurrences of `c` in `w` whose state is not `No`.
fn confirmed(w: &Vec<char>, st: &Vec<State>, c: char) -> (r: usize)
    requires
        w@.len() == st@.len(),
    ensures
        r == confirmed_count(w@, st@, c, w@.len() as int),
{
    let mut count: usize = 0;
    let mut k: usize = 0;
    while k < w.len()
        invariant
            w@.len() == st@.len(),
            k <= w@.len(),
            count == confirmed_count(w@, st@, c, k as int),
            count <= k,
        decreases w@.len() - k,
    {
        if w[k] == c && st[k] != State::No {
            count = count + 1;
        }
        k = k + 1;
    }
    count
}

/// Answer of an affix test whose text `part` is aligned at `start` in `w`.
fn affix(part: &Vec<char>, w: &Vec<char>, st: &Vec<State>, start: usize) -> (r: Answer)
    requires
        w@.len() == st@.len(),
        start + part@.len() <= w@.len(),
    ensures
        r == affix_answer(part@, w@, st@, start as int),
{
    let n = w.len();
    let mut all_yes = true;
    let mut any_no = false;
    let mut k: usize = 0;
    while k < part.len()
        invariant
            n == w@.len(),
            w@.len() == st@.len(),
            start + part@.len() <= w@.len(),
            k <= part@.len(),
            all_yes == forall|j: int| 0 <= j < k ==> #[trigger] aligned_yes(part@, w@, st@, start as int, j),
            any_no == exists|j: int| 0 <= j < k && #[trigger] aligned_no(part@, w@, st@, start as int, j),
        decreases part@.len() - k,
    {
        let pc = part[k];
        let ac = w[start + k];
        let yes = st[start + k] == State::Yes;
        if !(pc == ac && yes) {
            all_yes = false;
        }
        if (pc != ac && yes) || (pc == ac && !yes) {
            any_no = true;
        }
        proof {
            assert(aligned_yes(part@, w@, st@, start as int, k as int) == (pc == ac && yes));
            assert(aligned_no(part@, w@, st@, start as int, k as int) == ((pc != ac && yes) || (pc == ac && !yes)));
        }
        k = k + 1;
    }
    if all_yes {
        Answer::Yes
    } else if any_no {
        Answer::No
    } else {
        Answer::Unknown
    }
}

/// Counting answer-side copies is counting guess-side copies with the roles swapped.
proof fn lemma_unmatched_swap(g: Seq<char>, a: Seq<char>, c: char, n: int)
    ensures
        misplaced_count(a, g, c, n) == unmatched_count(g, a, c, n),
    decreases n,
{
    if n > 0 {
        lemma_unmatched_swap(g, a, c, n - 1);
    }
}

/// Number of positions `k < n` where `g` holds `c` and differs from `a`.
fn misplaced_before(g: &Vec<char>, a: &Vec<char>, c: char, n: usize) -> (r: usize)
    requires
        n <= g@.len(),
        n <= a@.len(),
    ensures
        r == misplaced_count(g@, a@, c, n as int),
{
    let mut count: usize = 0;
    let mut k: usize = 0;
    while k < n
        invariant
            n <= g@.len(),
            n <= a@.len(),
            k <= n,
            count == misplaced_count(g@, a@, c, k as int),
            count <= k,
        decreases n - k,
    {
        if g[k] == c && g[k] != a[k] {
            count = count + 1;
        }
        k = k + 1;
    }
    count
}

/// A word guessed against itself gets `Yes` on every character.
pub proof fn lemma_self_feedback_all_correct(w: Seq<char>)
    ensures
        feedback(w, w) == Seq::new(w.len(), |_i: int| State::Yes),
{
    assert(feedback(w, w) =~= Seq::new(w.len(), |_i: int| State::Yes));
}

/// An attempt derived from a word against itself answers `Yes` to the test
/// that the word holds its own letter at any of its positions.
pub proof fn lemma_self_attempt_answers_at(w: Seq<char>, i: usize)
    requires
        i < w.len(),
    ensures
        evaluation(w, feedback(w, w), TestView::At(w[i as int], i)) == Some(Answer::Yes),
{
}

} // verus!

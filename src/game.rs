use vstd::prelude::*;

use crate::answers::{answers_of, merged, Answer, Answers, DictAnswers};
use crate::attempt::{evaluation, Attempt, Attempts};
use crate::dict::Dict;
use crate::errors::Error;
use crate::options::Options;
use crate::parallel::par_map;
use crate::tests::{lemma_push, counts_fit, distinct_views, generating_count, in_suite, kept, min_count, Test, TestSuite, TestView};

verus! {

/// Description of a game current state.
pub struct Game<'a> {
    attempts: Attempts<'a>,
    dict: &'a Dict,
    dict_answers: DictAnswers,
    tests: TestSuite,
}

/// The next word to play.
#[derive(Debug, PartialEq)]
pub enum Guess {
    /// The one word left that fits what is known.
    Solution(String),
    /// Candidate answer for the next attempt.
    Candidate(String),
    /// Known wrong attempt that helps identifying the solution.
    Sacrifice(String),
    /// No word matches the current game state.
    NoSolution,
}

/// What the attempts `atts` tell together of the test `t`: each attempt's
/// answer, merged in turn from `Unknown`; `None` on a contradiction or a
/// test that does not fit an attempt.
pub open spec fn known<'a>(atts: Seq<Attempt<'a>>, t: TestView) -> Option<Answer>
    decreases atts.len(),
{
    if atts.len() == 0 {
        Some(Answer::Unknown)
    } else {
        match known(atts.drop_last(), t) {
            None => None,
            Some(prev) => match evaluation(atts.last().0@, atts.last().1@, t) {
                None => None,
                Some(new) => merged(prev, new),
            },
        }
    }
}

/// Whether the attempts `atts` give an answer to every test of `tests`.
pub open spec fn all_known<'a>(atts: Seq<Attempt<'a>>, tests: Seq<Test>) -> bool {
    forall|k: int| 0 <= k < tests.len() ==> (#[trigger] known(atts, tests[k]@)) is Some
}

/// The answers the attempts `atts` give to `tests`, when all are known.
pub open spec fn known_vector<'a>(atts: Seq<Attempt<'a>>, tests: Seq<Test>) -> Seq<Answer> {
    Seq::new(tests.len(), |k: int| known(atts, tests[k]@)->Some_0)
}

/// A word whose answers `wa` agree with the known answers `kv`.
pub open spec fn compatible(kv: Seq<Answer>, wa: Seq<Answer>) -> bool {
    forall|k: int| 0 <= k < kv.len() && k < wa.len() ==> (#[trigger] merged(kv[k], wa[k])) is Some
}

/// Number of the first `n` words of `ws` whose answers to `tests` agree
/// with the known answers `kv`.
pub open spec fn compatible_count(kv: Seq<Answer>, ws: Seq<Seq<char>>, tests: Seq<Test>, n: int) -> nat
    decreases n,
{
    if n <= 0 {
        0
    } else {
        compatible_count(kv, ws, tests, n - 1) + if compatible(kv, answers_of(ws[n - 1], tests)) {
            1nat
        } else {
            0nat
        }
    }
}

/// Estimated chance that a word passes a test: position tests count fully,
/// the others are scaled by the alphabet size.
pub open spec fn probability(t: TestView) -> nat {
    if t is At {
        1
    } else {
        26
    }
}

/// Number of the first `n` listed words (`rows` indexed by `idx`) answering
/// `Yes` to test `k` while the known answer to it is `Unknown`.
pub open spec fn positives(kv: Seq<Answer>, rows: Seq<Answers>, idx: Seq<usize>, k: int, n: int) -> nat
    decreases n,
{
    if n <= 0 {
        0
    } else {
        positives(kv, rows, idx, k, n - 1) + if kv[k] == Answer::Unknown && rows[idx[n - 1] as int].0@[k]
            == Answer::Yes {
            1nat
        } else {
            0nat
        }
    }
}

/// `w` is the weight of test `k` over the listed words `idx`: `n * (N - n)`
/// with `n` of the `N` words passing it while it is `Unknown`.
pub open spec fn weight_of(kv: Seq<Answer>, rows: Seq<Answers>, idx: Seq<usize>, k: int, w: u64) -> bool {
    let p = positives(kv, rows, idx, k, idx.len() as int);
    p <= idx.len() && w == p * (idx.len() - p)
}

/// Score of a word: the weights of the tests, each scaled by the chance
/// that the word passes it, summed over the first `n` tests.
pub open spec fn score(tests: Seq<Test>, weights: Seq<u64>, n: int) -> nat
    decreases n,
{
    if n <= 0 {
        0
    } else {
        score(tests, weights, n - 1) + probability(tests[n - 1]@) * (weights[n - 1] as nat)
    }
}

impl<'a> Game<'a> {
    /// The attempts played so far.
    pub closed spec fn attempt_list(&self) -> Seq<Attempt<'a>> {
        self.attempts@
    }

    /// The test suite of the game.
    pub closed spec fn test_list(&self) -> Seq<Test> {
        self.tests@
    }

    /// The dictionary of the game.
    pub closed spec fn dict_spec(&self) -> Dict {
        *self.dict
    }

    /// The cached answers of each word hold the word's answers to the
    /// tests, and every attempt has one state per character.
    pub closed spec fn wf(&self) -> bool {
        &&& self.dict.answer_list().len() + self.dict.allowed_list().len() <= usize::MAX
        &&& self.dict_answers@.len() == self.dict.words().len()
        &&& forall|i: int| 0 <= i < self.dict_answers@.len() ==> (#[trigger] self.dict_answers@[i]).0@ == answers_of(self.dict.words()[i], self.tests@)
        &&& forall|i: int| 0 <= i < self.attempts@.len() ==> (#[trigger] self.attempts@[i]).wf()
    }

    /// A new game over `dict`, with the tests generated for the dictionary.
    pub fn new(dict: &'a Dict, options: &Options) -> (r: Self)
        requires
            dict.wf(),
            options.tests_xfix_lengths <= dict.size_spec(),
            forall|i: int| 0 <= i < dict.words().len() ==> counts_fit(#[trigger] dict.words()[i]),
        ensures
            r.wf(),
            r.attempt_list().len() == 0,
            r.dict_spec() == *dict,
            distinct_views(r.test_list()),
            forall|t: TestView| in_suite(r.test_list(), t) <==> kept(
                generating_count(dict.words(), options.tests_xfix_lengths as nat, t),
                dict.words().len(),
                min_count(dict.words().len(), options.tests_keep_ppm as nat),
            ),
    {
        let tests = Test::for_dict(dict, options);
        Game::new_with_tests(dict, tests)
    }

    /// A new game over `dict`, with the given tests.
    pub fn new_with_tests(dict: &'a Dict, tests: TestSuite) -> (r: Self)
        requires
            dict.answer_list().len() + dict.allowed_list().len() <= usize::MAX,
        ensures
            r.wf(),
            r.attempt_list().len() == 0,
            r.dict_spec() == *dict,
            r.test_list() == tests@,
    {
        let dict_answers = Answers::of_dict(dict, &tests);
        Game { attempts: Vec::new(), dict, dict_answers, tests }
    }

    /// Record one more attempt.
    pub fn add(&mut self, attempt: Attempt<'a>)
        requires
            old(self).wf(),
            attempt.wf(),
        ensures
            final(self).wf(),
            final(self).attempt_list() == old(self).attempt_list().push(attempt),
            final(self).test_list() == old(self).test_list(),
            final(self).dict_spec() == old(self).dict_spec(),
    {
        self.attempts.push(attempt);
    }

    /// The dictionary of the game.
    pub fn dict(&self) -> (r: &Dict)
        ensures
            *r == self.dict_spec(),
    {
        self.dict
    }

    /// The attempts played so far.
    pub fn attempts(&self) -> (r: &Attempts<'a>)
        ensures
            r@ == self.attempt_list(),
    {
        &self.attempts
    }

    /// Compute the most relevant guess to attempt at next try.
    ///
    /// The answer words that agree with what is known are the candidates:
    /// none gives `NoSolution`, one gives it as `Solution`. Otherwise each
    /// unresolved test weighs `n * (N - n)`, for `n` of the `N` candidates
    /// passing it, and each word scores the sum of the weights, each scaled
    /// by a fixed chance per kind of test. The best answer word (the last of
    /// equals) is the `Candidate`, unless an allowed word scores strictly
    /// more and is played as a `Sacrifice`. As the chances depend on the
    /// kind of test alone, all words score alike and the `Candidate` is the
    /// last answer word.
    pub fn guess_next(&self) -> (r: Result<Guess, Error>)
        requires
            self.wf(),
            26 * self.test_list().len() * self.dict_spec().answer_list().len()
                * self.dict_spec().answer_list().len() <= u64::MAX,
        ensures
            r is Err <==> !all_known(self.attempt_list(), self.test_list()),
            r is Ok ==> ({
                let kv = known_vector(self.attempt_list(), self.test_list());
                let ws = self.dict_spec().words();
                let tests = self.test_list();
                let na = self.dict_spec().answer_list().len() as int;
                let c = compatible_count(kv, ws, tests, na);
                &&& (c == 0 ==> r == Ok::<Guess, Error>(Guess::NoSolution))
                &&& (c == 1 ==> (r matches Ok(Guess::Solution(w)) && exists|i: int| 0 <= i < na && compatible(kv, answers_of(#[trigger] ws[i], tests)) && w@ == ws[i]))
                &&& (c >= 2 ==> (r matches Ok(Guess::Candidate(w)) && w@ == ws[na - 1]))
            }),
    {
        // Current answers.
        let known_answers = match self.known_answers() {
            Ok(a) => a,
            Err(e) => return Err(e),
        };
        let kv = &known_answers.0;
        let ghost ws = self.dict.words();
        let ghost tests = self.tests@;
        let na = self.dict.answers.len();

        // Answer words compatible with the current answers.
        let mut compatible_words: Vec<usize> = Vec::new();
        let mut i: usize = 0;
        while i < na
            invariant
                self.wf(),
                ws == self.dict.words(),
                tests == self.tests@,
                na == self.dict.answers@.len(),
                kv@ == known_vector(self.attempts@, tests),
                i <= na,
                compatible_words@.len() == compatible_count(kv@, ws, tests, i as int),
                compatible_words@.len() <= i,
                forall|x: int| 0 <= x < compatible_words@.len() ==> (#[trigger] compatible_words@[x]) < i
                    && compatible(kv@, answers_of(ws[compatible_words@[x] as int], tests)),
                forall|x: int, y: int| 0 <= x < y < compatible_words@.len() ==> (#[trigger] compatible_words@[x]) < (#[trigger] compatible_words@[y]),
            decreases na - i,
        {
            proof {
                assert(self.dict_answers@[i as int].0@ == answers_of(ws[i as int], tests));
            }
            if agrees(kv, &self.dict_answers[i].0) {
                compatible_words.push(i);
            }
            i = i + 1;
        }
        let n = compatible_words.len();
        if n == 0 {
            return Ok(Guess::NoSolution);
        }
        if n == 1 {
            let w = compatible_words[0];
            proof {
                assert(ws[w as int] == self.dict.answers@[w as int]@);
            }
            return Ok(Guess::Solution(self.dict.answers[w].clone()));
        }

        // Weight of each test: highest for the tests that split the
        // compatible answers in half.
        let weights = self.test_weights(kv, &compatible_words);

        // Score of every word, answers then allowed ones.
        let ghost total = score(tests, weights@, tests.len() as int);
        let scorer = |_word_answers: &Answers| -> (s: u64)
            ensures
                s == total,
            { word_score(&self.tests, &weights, na) };
        let word_score = par_map(&self.dict_answers, scorer);

        // Best answer word, the last of equals.
        let mut best: usize = 0;
        let mut i: usize = 1;
        while i < na
            invariant
                2 <= n <= na,
                na <= word_score@.len(),
                forall|x: int| 0 <= x < word_score@.len() ==> word_score@[x] == total,
                1 <= i <= na,
                best == i - 1,
            decreases na - i,
        {
            if word_score[i] >= word_score[best] {
                best = i;
            }
            i = i + 1;
        }

        // Best allowed word, the last of equals.
        let nw = word_score.len();
        let mut sacrifice: Option<usize> = None;
        let mut j: usize = na;
        while j < nw
            invariant
                na <= j <= nw,
                nw == word_score@.len(),
                nw == self.dict.answers@.len() + self.dict.allowed@.len(),
                forall|x: int| 0 <= x < word_score@.len() ==> word_score@[x] == total,
                sacrifice matches Some(s) ==> na <= s < j,
            decreases nw - j,
        {
            let better = match sacrifice {
                None => true,
                Some(s) => word_score[j] >= word_score[s],
            };
            if better {
                sacrifice = Some(j);
            }
            j = j + 1;
        }
        proof {
            assert(ws[best as int] == self.dict.answers@[best as int]@);
        }
        match sacrifice {
            Some(s) if word_score[s] > word_score[best] => Ok(Guess::Sacrifice(self.dict.allowed[s - na].clone())),
            _ => Ok(Guess::Candidate(self.dict.answers[best].clone())),
        }
    }

    /// Weight of each test over the compatible answer words `idx`: for a
    /// test still `Unknown`, `n * (N - n)` with `n` of the `N` words passing
    /// it; zero for a resolved test.
    fn test_weights(&self, kv: &Vec<Answer>, idx: &Vec<usize>) -> (r: Vec<u64>)
        requires
            self.wf(),
            kv@.len() == self.tests@.len(),
            idx@.len() <= self.dict.answers@.len(),
            forall|x: int| 0 <= x < idx@.len() ==> (#[trigger] idx@[x]) < self.dict.answers@.len(),
            26 * self.tests@.len() * self.dict.answers@.len() * self.dict.answers@.len() <= u64::MAX,
        ensures
            r@.len() == kv@.len(),
            forall|k: int| 0 <= k < r@.len() ==> weight_of(kv@, self.dict_answers@, idx@, k, #[trigger] r@[k])
                && r@[k] <= self.dict.answers@.len() * self.dict.answers@.len(),
    {
        let n = idx.len();
        let ghost na = self.dict.answers@.len();
        let mut weights: Vec<u64> = Vec::new();
        let mut k: usize = 0;
        while k < kv.len()
            invariant
                self.wf(),
                kv@.len() == self.tests@.len(),
                n == idx@.len(),
                n <= na,
                na == self.dict.answers@.len(),
                26 * self.tests@.len() * na * na <= u64::MAX,
                forall|x: int| 0 <= x < idx@.len() ==> (#[trigger] idx@[x]) < na,
                k <= kv@.len(),
                weights@.len() == k,
                forall|j: int| 0 <= j < k ==> weight_of(kv@, self.dict_answers@, idx@, j, #[trigger] weights@[j])
                    && weights@[j] <= na * na,
            decreases kv@.len() - k,
        {
            let mut count: u64 = 0;
            let mut x: usize = 0;
            while x < n
                invariant
                    self.wf(),
                    kv@.len() == self.tests@.len(),
                    k < kv@.len(),
                    n == idx@.len(),
                    n <= na,
                    na == self.dict.answers@.len(),
                    forall|y: int| 0 <= y < idx@.len() ==> (#[trigger] idx@[y]) < na,
                    x <= n,
                    count == positives(kv@, self.dict_answers@, idx@, k as int, x as int),
                    count <= x,
                decreases n - x,
            {
                let w = idx[x];
                proof {
                    assert(self.dict_answers@[w as int].0@ == answers_of(self.dict.words()[w as int], self.tests@));
                }
                if kv[k] == Answer::Unknown && self.dict_answers[w].0[k] == Answer::Yes {
                    count = count + 1;
                }
                x = x + 1;
            }
            proof {
                let (p, m, a) = (count as int, n as int, na as int);
                assert(p * (m - p) <= a * a) by (nonlinear_arith)
                    requires
                        0 <= p <= m,
                        m <= a,
                ;
                let t = self.tests@.len() as int;
                assert(a * a <= 26 * t * a * a) by (nonlinear_arith)
                    requires
                        1 <= t,
                        0 <= a,
                ;
                assert(p <= m);
                assert(0 <= p * (m - p)) by (nonlinear_arith)
                    requires
                        0 <= p <= m,
                ;
            }
            let weight = count * (n as u64 - count);
            let ghost before = weights@;
            weights.push(weight);
            proof {
                lemma_push(before, weight);
                assert(weights@[k as int] == weight);
                assert(weight_of(kv@, self.dict_answers@, idx@, k as int, weight));
                assert forall|j: int| 0 <= j < k + 1 implies weight_of(kv@, self.dict_answers@, idx@, j, #[trigger] weights@[j])
                    && weights@[j] <= na * na by {
                    if j < k {
                        assert(weights@[j] == before[j]);
                    }
                }
            }
            k = k + 1;
        }
        weights
    }

    /// Compute the answer of each test given known attempts.
    pub fn known_answers(&self) -> (r: Result<Answers, Error>)
        requires
            self.wf(),
        ensures
            r is Ok <==> all_known(self.attempt_list(), self.test_list()),
            r matches Ok(a) ==> a.0@ == known_vector(self.attempt_list(), self.test_list()),
    {
        let mut out: Vec<Answer> = Vec::new();
        let mut k: usize = 0;
        while k < self.tests.len()
            invariant
                self.wf(),
                k <= self.tests@.len(),
                out@.len() == k,
                forall|j: int| 0 <= j < k ==> Some(#[trigger] out@[j]) == known(self.attempts@, self.tests@[j]@),
            decreases self.tests@.len() - k,
        {
            match fold_test(&self.attempts, &self.tests[k]) {
                Ok(a) => out.push(a),
                Err(e) => return Err(e),
            }
            k = k + 1;
        }
        proof {
            assert forall|j: int| 0 <= j < self.tests@.len() implies (#[trigger] known(self.attempts@, self.tests@[j]@)) is Some by {
                assert(Some(out@[j]) == known(self.attempts@, self.tests@[j]@));
            }
            assert(out@ =~= known_vector(self.attempts@, self.tests@));
        }
        Ok(Answers(out))
    }
}

/// Whether the answers `wa` agree with the known answers `kv`.
fn agrees(kv: &Vec<Answer>, wa: &Vec<Answer>) -> (r: bool)
    ensures
        r == compatible(kv@, wa@),
{
    let mut k: usize = 0;
    while k < kv.len() && k < wa.len()
        invariant
            k <= kv@.len(),
            k <= wa@.len(),
            forall|j: int| 0 <= j < k ==> (#[trigger] merged(kv@[j], wa@[j])) is Some,
        decreases kv@.len() - k,
    {
        if kv[k].merge(wa[k]).is_err() {
            return false;
        }
        k = k + 1;
    }
    true
}

/// Score of a word under the weights of the tests.
fn word_score(tests: &TestSuite, weights: &Vec<u64>, na: usize) -> (r: u64)
    requires
        weights@.len() == tests@.len(),
        forall|k: int| 0 <= k < weights@.len() ==> #[trigger] weights@[k] <= na * na,
        26 * tests@.len() * na * na <= u64::MAX,
    ensures
        r == score(tests@, weights@, tests@.len() as int),
{
    let ghost b = 26 * na * na;
    let mut total: u64 = 0;
    let mut k: usize = 0;
    while k < tests.len()
        invariant
            weights@.len() == tests@.len(),
            forall|j: int| 0 <= j < weights@.len() ==> #[trigger] weights@[j] <= na * na,
            26 * tests@.len() * na * na <= u64::MAX,
            b == 26 * na * na,
            k <= tests@.len(),
            total == score(tests@, weights@, k as int),
            total <= k * b,
        decreases tests@.len() - k,
    {
        let probability: u64 = match tests[k] {
            Test::At(_, _) => 1,
            _ => 26,
        };
        proof {
            let (kk, t, nn, w) = (k as int, tests@.len() as int, na as int, weights@[k as int] as int);
            assert((kk + 1) * b <= t * b && (kk + 1) * b == kk * b + b) by (nonlinear_arith)
                requires
                    kk < t,
                    b >= 0,
            ;
            assert(26 * t * nn * nn == t * b) by (nonlinear_arith)
                requires
                    b == 26 * nn * nn,
            ;
            assert(probability * w <= b) by (nonlinear_arith)
                requires
                    probability <= 26,
                    w <= nn * nn,
                    b == 26 * nn * nn,
                    0 <= w,
            ;
        }
        total = total + probability * weights[k];
        k = k + 1;
    }
    total
}

/// Fold the answers of every attempt to `test`, from `Unknown`.
fn fold_test<'a>(attempts: &Vec<Attempt<'a>>, test: &Test) -> (r: Result<Answer, Error>)
    requires
        forall|i: int| 0 <= i < attempts@.len() ==> (#[trigger] attempts@[i]).wf(),
    ensures
        r is Ok <==> known(attempts@, test@) is Some,
        r matches Ok(a) ==> Some(a) == known(attempts@, test@),
{
    let ghost atts = attempts@;
    let mut acc = Answer::Unknown;
    let mut i: usize = 0;
    while i < attempts.len()
        invariant
            atts == attempts@,
            forall|x: int| 0 <= x < atts.len() ==> (#[trigger] atts[x]).wf(),
            i <= atts.len(),
            Some(acc) == known(atts.take(i as int), test@),
        decreases atts.len() - i,
    {
        proof {
            assert(atts.take(i + 1).drop_last() == atts.take(i as int));
            assert(atts.take(i + 1).last() == atts[i as int]);
        }
        let answer = match attempts[i].answers(test) {
            Ok(a) => a,
            Err(e) => {
                proof {
                    lemma_known_none_extends(atts, i as int + 1, test@);
                }
                return Err(e);
            },
        };
        match acc.merge(answer) {
            Ok(a) => acc = a,
            Err(e) => {
                proof {
                    lemma_known_none_extends(atts, i as int + 1, test@);
                }
                return Err(e);
            },
        }
        i = i + 1;
    }
    proof {
        assert(atts.take(atts.len() as int) == atts);
    }
    Ok(acc)
}

/// Once a contradiction is met, more attempts keep it.
proof fn lemma_known_none_extends<'a>(atts: Seq<Attempt<'a>>, n: int, t: TestView)
    requires
        0 <= n <= atts.len(),
        known(atts.take(n), t) is None,
    ensures
        known(atts, t) is None,
    decreases atts.len() - n,
{
    if n < atts.len() {
        assert(atts.take(n + 1).drop_last() == atts.take(n));
        lemma_known_none_extends(atts, n + 1, t);
    } else {
        assert(atts.take(n) == atts);
    }
}

} // verus!

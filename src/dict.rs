use vstd::prelude::*;

use crate::errors::DictError;
use crate::parallel::par_position_any;

verus! {

pub type WordList = Vec<String>;

/// Dictionaries contain the list of words allowed for a given game.
pub struct Dict {
    /// List of possible answers.
    pub answers: WordList,
    /// List of words that can be submitted but won't be the answer.
    pub allowed: WordList,
    /// Size of words.
    pub(crate) size: usize,
}

/// The words of two lists, the first one first, as character sequences.
pub open spec fn words_of(answers: Seq<String>, allowed: Seq<String>) -> Seq<Seq<char>> {
    (answers + allowed).map_values(|s: String| s@)
}

/// Number of occurrences of `w` in `ws`.
pub open spec fn occurrences(ws: Seq<Seq<char>>, w: Seq<char>) -> nat
    decreases ws.len(),
{
    if ws.len() == 0 {
        0
    } else {
        occurrences(ws.drop_last(), w) + if ws.last() == w {
            1nat
        } else {
            0nat
        }
    }
}

/// An ASCII uppercase letter.
pub open spec fn is_upper(c: char) -> bool {
    'A' <= c <= 'Z'
}

/// Every word of `ws` has `size` characters.
pub open spec fn sizes_ok(ws: Seq<Seq<char>>, size: nat) -> bool {
    forall|i: int| 0 <= i < ws.len() ==> (#[trigger] ws[i]).len() == size
}

/// No word occurs twice in `ws`.
pub open spec fn no_duplicates(ws: Seq<Seq<char>>) -> bool {
    forall|i: int, j: int| 0 <= i < j < ws.len() ==> (#[trigger] ws[i]) != (#[trigger] ws[j])
}

/// Every word of `ws` is made of ASCII uppercase letters.
pub open spec fn letters_ok(ws: Seq<Seq<char>>) -> bool {
    forall|i: int, k: int| 0 <= i < ws.len() && 0 <= k < ws[i].len() ==> is_upper(#[trigger] ws[i][k])
}

impl Dict {
    /// All the words, answers first.
    pub open(crate) spec fn words(&self) -> Seq<Seq<char>> {
        words_of(self.answer_list(), self.allowed_list())
    }

    /// The answer list.
    pub open(crate) spec fn answer_list(&self) -> Seq<String> {
        self.answers@
    }

    /// The list of allowed words that are no answer.
    pub open(crate) spec fn allowed_list(&self) -> Seq<String> {
        self.allowed@
    }

    /// The size shared by the words.
    pub closed spec fn size_spec(&self) -> nat {
        self.size as nat
    }

    /// A checked dictionary: answers present, one size, no duplicate, only
    /// uppercase letters.
    pub open(crate) spec fn wf(&self) -> bool {
        &&& self.answer_list().len() > 0
        &&& self.answer_list().len() + self.allowed_list().len() <= usize::MAX
        &&& sizes_ok(self.words(), self.size_spec())
        &&& no_duplicates(self.words())
        &&& letters_ok(self.words())
    }

    /// Build a checked dictionary: the answers must be present, and all
    /// words must share the first answer's size, occur once and be made of
    /// ASCII uppercase letters; the first failing check gives the error.
    pub fn new(answers: WordList, allowed: WordList) -> (r: Result<Self, DictError>)
        requires
            answers@.len() + allowed@.len() <= usize::MAX,
        ensures
            answers@.len() == 0 ==> r matches Err(DictError::MissingAnswers),
            answers@.len() > 0 ==> {
                let ws = words_of(answers@, allowed@);
                let size = answers@[0]@.len();
                &&& (r is Ok <==> sizes_ok(ws, size) && no_duplicates(ws) && letters_ok(ws))
                &&& (r matches Ok(d) ==> d.answer_list() == answers@ && d.allowed_list() == allowed@ && d.wf()
                    && d.size_spec() == size)
                &&& (!sizes_ok(ws, size) ==> (r matches Err(DictError::InconsistentSize(e, f, w))
                    && e == size && f == w@.len() && f != e && ws.contains(w@)))
                &&& (sizes_ok(ws, size) && !no_duplicates(ws) ==> (r matches Err(
                    DictError::DuplicateWord(c, w),
                ) && c == occurrences(ws, w@) && c > 1 && ws.contains(w@)))
                &&& (sizes_ok(ws, size) && no_duplicates(ws) && !letters_ok(ws) ==> (r matches Err(
                    DictError::UnauthorizedCharacter(c, w),
                ) && !is_upper(c) && w@.contains(c) && ws.contains(w@)))
            },
    {
        if answers.len() == 0 {
            return Err(DictError::MissingAnswers);
        }
        let size = answers[0].as_str().unicode_len();
        let dict = Dict { answers, allowed, size };
        match dict.check() {
            None => Ok(dict),
            Some(e) => Err(e),
        }
    }

    /// The word at `i`, counting answers first.
    pub fn word(&self, i: usize) -> (r: &String)
        requires
            i < self.answer_list().len() + self.allowed_list().len(),
        ensures
            r@ == self.words()[i as int],
    {
        if i < self.answers.len() {
            &self.answers[i]
        } else {
            &self.allowed[i - self.answers.len()]
        }
    }

    /// Number of words, answers and allowed ones.
    pub fn len(&self) -> (r: usize)
        requires
            self.answer_list().len() + self.allowed_list().len() <= usize::MAX,
        ensures
            r == self.answer_list().len() + self.allowed_list().len(),
            r == self.words().len(),
    {
        self.answers.len() + self.allowed.len()
    }

    /// Whether the dictionary holds no word.
    pub fn is_empty(&self) -> (r: bool)
        requires
            self.answer_list().len() + self.allowed_list().len() <= usize::MAX,
        ensures
            r == (self.words().len() == 0),
    {
        self.len() == 0
    }

    /// Number of characters of each word.
    pub fn word_size(&self) -> (r: usize)
        ensures
            r == self.size_spec(),
    {
        self.size
    }

    /// Check the dictionary consistency: all words have the same size, no
    /// duplicate exists in the word list, only ASCII uppercase is used.
    fn check(&self) -> (r: Option<DictError>)
        requires
            self.answer_list().len() + self.allowed_list().len() <= usize::MAX,
        ensures
            r is None <==> sizes_ok(self.words(), self.size_spec()) && no_duplicates(self.words())
                && letters_ok(self.words()),
            !sizes_ok(self.words(), self.size_spec()) ==> (r matches Some(
                DictError::InconsistentSize(e, f, w),
            ) && e == self.size_spec() && f == w@.len() && f != e && self.words().contains(w@)),
            sizes_ok(self.words(), self.size_spec()) && !no_duplicates(self.words()) ==> (r matches Some(
                DictError::DuplicateWord(c, w),
            ) && c == occurrences(self.words(), w@) && c > 1 && self.words().contains(w@)),
            sizes_ok(self.words(), self.size_spec()) && no_duplicates(self.words()) && !letters_ok(
                self.words(),
            ) ==> (r matches Some(DictError::UnauthorizedCharacter(c, w)) && !is_upper(c)
                && w@.contains(c) && self.words().contains(w@)),
    {
        match self.check_size() {
            Some(e) => Some(e),
            None => match self.check_duplicate() {
                Some(e) => Some(e),
                None => self.check_characters(),
            },
        }
    }

    /// Index of some word that `f` accepts, answers first, searched in
    /// parallel; `None` when `f` accepts none.
    fn find_word<F: Fn(&String) -> bool + Sync + Send>(&self, f: F) -> (r: Option<usize>)
        requires
            self.answer_list().len() + self.allowed_list().len() <= usize::MAX,
            forall|i: int| 0 <= i < self.answer_list().len() ==> f.requires((&self.answer_list()[i],)),
            forall|i: int| 0 <= i < self.allowed_list().len() ==> f.requires((&self.allowed_list()[i],)),
        ensures
            r matches Some(i) ==> i < self.words().len() && f.ensures(
                (&(self.answer_list() + self.allowed_list())[i as int],),
                true,
            ),
            r is None ==> forall|i: int| 0 <= i < self.words().len() ==> f.ensures(
                (&(self.answer_list() + self.allowed_list())[i],),
                false,
            ),
    {
        let ghost all = self.answer_list() + self.allowed_list();
        let na = self.answers.len();
        match par_position_any(&self.answers, &f) {
            Some(i) => {
                assert(all[i as int] == self.answers@[i as int]);
                Some(i)
            },
            None => match par_position_any(&self.allowed, &f) {
                Some(j) => {
                    assert(all[na + j] == self.allowed@[j as int]);
                    Some(na + j)
                },
                None => {
                    proof {
                        assert forall|i: int| 0 <= i < all.len() implies f.ensures((&all[i],), false) by {
                            if i < na {
                                assert(all[i] == self.answers@[i]);
                            } else {
                                assert(all[i] == self.allowed@[i - na]);
                            }
                        }
                    }
                    None
                },
            },
        }
    }

    /// Check that all words share the same size.
    fn check_size(&self) -> (r: Option<DictError>)
        requires
            self.answer_list().len() + self.allowed_list().len() <= usize::MAX,
        ensures
            r is None <==> sizes_ok(self.words(), self.size_spec()),
            r matches Some(e) ==> e matches DictError::InconsistentSize(s, f, w) && s
                == self.size_spec() && f == w@.len() && f != s && self.words().contains(w@),
    {
        let ghost ws = self.words();
        let size = self.size;
        let wrong_size = |w: &String| -> (b: bool)
            ensures
                b == (w@.len() != size),
            { w.as_str().unicode_len() != size };
        match self.find_word(wrong_size) {
            Some(i) => {
                let word = self.word(i);
                let found = word.as_str().unicode_len();
                proof {
                    assert(ws[i as int] == (self.answer_list() + self.allowed_list())[i as int]@);
                }
                Some(DictError::InconsistentSize(size, found, word.clone()))
            },
            None => {
                proof {
                    assert forall|i: int| 0 <= i < ws.len() implies (#[trigger] ws[i]).len() == self.size_spec() by {
                        assert(ws[i] == (self.answer_list() + self.allowed_list())[i]@);
                    }
                }
                None
            },
        }
    }

    /// Check that the list contains no duplicate.
    fn check_duplicate(&self) -> (r: Option<DictError>)
        requires
            self.answer_list().len() + self.allowed_list().len() <= usize::MAX,
        ensures
            r is None <==> no_duplicates(self.words()),
            r matches Some(e) ==> e matches DictError::DuplicateWord(c, w) && c == occurrences(
                self.words(),
                w@,
            ) && c > 1 && self.words().contains(w@),
    {
        let ghost ws = self.words();
        let repeated = |w: &String| -> (b: bool)
            ensures
                b == (occurrences(self.words(), w@) != 1),
            { self.count_word(w) != 1 };
        match self.find_word(repeated) {
            Some(i) => {
                let word = self.word(i);
                let count = self.count_word(word);
                proof {
                    assert(ws[i as int] == (self.answer_list() + self.allowed_list())[i as int]@);
                    lemma_occurs(ws, i as int);
                    if no_duplicates(ws) {
                        lemma_unique_once(ws, i as int);
                    }
                }
                Some(DictError::DuplicateWord(count, word.clone()))
            },
            None => {
                proof {
                    assert forall|a: int, b: int| 0 <= a < b < ws.len() implies (#[trigger] ws[a]) != (#[trigger] ws[b]) by {
                        assert(ws[a] == (self.answer_list() + self.allowed_list())[a]@);
                        if ws[a] == ws[b] {
                            lemma_two_occurrences(ws, a, b);
                        }
                    }
                }
                None
            },
        }
    }

    /// Number of occurrences of `word` among all the words.
    fn count_word(&self, word: &String) -> (r: usize)
        requires
            self.answer_list().len() + self.allowed_list().len() <= usize::MAX,
        ensures
            r == occurrences(self.words(), word@),
    {
        let ghost ws = self.words();
        let n = self.len();
        let mut count: usize = 0;
        let mut k: usize = 0;
        while k < n
            invariant
                ws == self.words(),
                n == ws.len(),
                k <= n,
                count == occurrences(ws.subrange(0, k as int), word@),
                count <= k,
            decreases n - k,
        {
            proof {
                assert(ws.subrange(0, k + 1).drop_last() == ws.subrange(0, k as int));
            }
            if *self.word(k) == *word {
                count = count + 1;
            }
            k = k + 1;
        }
        proof {
            assert(ws.subrange(0, n as int) == ws);
        }
        count
    }

    /// Check that all characters are allowed.
    fn check_characters(&self) -> (r: Option<DictError>)
        requires
            self.answer_list().len() + self.allowed_list().len() <= usize::MAX,
        ensures
            r is None <==> letters_ok(self.words()),
            r matches Some(e) ==> e matches DictError::UnauthorizedCharacter(c, w) && !is_upper(c)
                && w@.contains(c) && self.words().contains(w@),
    {
        let ghost ws = self.words();
        let has_bad = |w: &String| -> (b: bool)
            ensures
                b == !upper_word(w@),
            { bad_character(w).is_some() };
        match self.find_word(has_bad) {
            Some(i) => {
                let word = self.word(i);
                proof {
                    assert(ws[i as int] == (self.answer_list() + self.allowed_list())[i as int]@);
                }
                match bad_character(word) {
                    Some(c) => Some(DictError::UnauthorizedCharacter(c, word.clone())),
                    None => None,
                }
            },
            None => {
                proof {
                    assert forall|i: int, k: int| 0 <= i < ws.len() && 0 <= k < ws[i].len() implies is_upper(#[trigger] ws[i][k]) by {
                        assert(ws[i] == (self.answer_list() + self.allowed_list())[i]@);
                        assert(upper_word(ws[i]));
                    }
                }
                None
            },
        }
    }
}

/// Every character of `w` is an ASCII uppercase letter.
pub open spec fn upper_word(w: Seq<char>) -> bool {
    forall|k: int| 0 <= k < w.len() ==> is_upper(#[trigger] w[k])
}

/// The first character of `word` that is no ASCII uppercase letter.
fn bad_character(word: &String) -> (r: Option<char>)
    ensures
        r is None <==> upper_word(word@),
        r matches Some(c) ==> !is_upper(c) && word@.contains(c),
{
    let m = word.as_str().unicode_len();
    let mut k: usize = 0;
    while k < m
        invariant
            m == word@.len(),
            k <= m,
            forall|x: int| 0 <= x < k ==> is_upper(#[trigger] word@[x]),
        decreases m - k,
    {
        let c = word.as_str().get_char(k);
        if !('A' <= c && c <= 'Z') {
            proof {
                assert(word@[k as int] == c);
            }
            return Some(c);
        }
        k = k + 1;
    }
    None
}

/// A word of a list occurs in it at least once.
proof fn lemma_occurs(ws: Seq<Seq<char>>, i: int)
    requires
        0 <= i < ws.len(),
    ensures
        occurrences(ws, ws[i]) >= 1,
    decreases ws.len(),
{
    if i < ws.len() - 1 {
        lemma_occurs(ws.drop_last(), i);
    }
}

/// A word absent from a list occurs in it zero times.
proof fn lemma_absent(ws: Seq<Seq<char>>, w: Seq<char>)
    requires
        forall|k: int| 0 <= k < ws.len() ==> ws[k] != w,
    ensures
        occurrences(ws, w) == 0,
    decreases ws.len(),
{
    if ws.len() > 0 {
        lemma_absent(ws.drop_last(), w);
    }
}

/// In a list without duplicates, each word occurs once.
proof fn lemma_unique_once(ws: Seq<Seq<char>>, i: int)
    requires
        0 <= i < ws.len(),
        no_duplicates(ws),
    ensures
        occurrences(ws, ws[i]) == 1,
    decreases ws.len(),
{
    let v = ws.drop_last();
    if i < ws.len() - 1 {
        assert(no_duplicates(v)) by {
            assert forall|a: int, b: int| 0 <= a < b < v.len() implies (#[trigger] v[a]) != (#[trigger] v[b]) by {
                assert(v[a] == ws[a] && v[b] == ws[b]);
            }
        }
        lemma_unique_once(v, i);
        assert(ws[i] != ws[ws.len() - 1]);
    } else {
        assert forall|k: int| 0 <= k < v.len() implies v[k] != ws[i] by {
            assert(v[k] == ws[k]);
        }
        lemma_absent(v, ws[i]);
    }
}

/// A word found at two positions occurs at least twice.
proof fn lemma_two_occurrences(ws: Seq<Seq<char>>, i: int, j: int)
    requires
        0 <= i < j < ws.len(),
        ws[i] == ws[j],
    ensures
        occurrences(ws, ws[i]) >= 2,
    decreases ws.len(),
{
    if j < ws.len() - 1 {
        lemma_two_occurrences(ws.drop_last(), i, j);
    } else {
        lemma_occurs(ws.drop_last(), i);
    }
}

} // verus!

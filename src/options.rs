use vstd::prelude::*;

verus! {

/// Settings of test generation.
pub struct Options {
    /// Max length of prefixes/suffixes searched for in tests.
    pub tests_xfix_lengths: usize,
    /// Minimum share of words, in parts per million, that a test must
    /// split off for it to be kept.
    pub tests_keep_ppm: u32,
}

impl Options {
    /// Affixes up to four letters, tests kept above one percent of the words.
    pub fn default() -> (r: Self)
        ensures
            r.tests_xfix_lengths == 4,
            r.tests_keep_ppm == 10_000,
    {
        Options { tests_xfix_lengths: 4, tests_keep_ppm: 10_000 }
    }
}

} // verus!

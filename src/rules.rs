use vstd::prelude::*;

use std::collections::HashMap;

use crate::dict::Dict;

verus! {

/// Available game rules.
#[derive(Clone, Copy, Debug, PartialEq, Eq, Hash, Structural)]
pub enum Rules {
    /// First letter, word size.
    SUTOM(char, u8),
}

/// Dictionaries registered per game rules.
pub struct DictRegistry(pub HashMap<Rules, Dict>);

impl DictRegistry {
    /// An empty registry.
    pub fn new() -> (r: Self)
        ensures
            r.0@ == Map::<Rules, Dict>::empty(),
    {
        DictRegistry(HashMap::new())
    }
}

} // verus!

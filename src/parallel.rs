use vstd::prelude::*;

use rayon::iter::{IndexedParallelIterator, IntoParallelRefIterator, ParallelIterator};

verus! {

/// Apply `f` to every item, in parallel, keeping the items' order.
///
/// Relies on rayon's `par_iter().map(f).collect_into_vec(..)` over a slice:
/// slice iterators are indexed, and `collect_into_vec` writes each result at
/// its item's index, so the output has one result per item, in order.
#[verifier::external_body]
pub(crate) fn par_map<T: Sync, U: Send, F: Fn(&T) -> U + Sync + Send>(items: &Vec<T>, f: F) -> (r: Vec<U>)
    requires
        forall|i: int| 0 <= i < items@.len() ==> f.requires((&items@[i],)),
    ensures
        r@.len() == items@.len(),
        forall|i: int| 0 <= i < items@.len() ==> f.ensures((&items@[i],), #[trigger] r@[i]),
{
    let mut out = Vec::with_capacity(items.len());
    items.par_iter().map(f).collect_into_vec(&mut out);
    out
}

/// Index of some item that `f` accepts, searched in parallel; `None` when
/// `f` accepts none.
///
/// Relies on rayon's `par_iter().position_any(f)` over a slice: it returns
/// the index of an item matching the predicate, not necessarily the first,
/// and `None` only when no item matches.
#[verifier::external_body]
pub(crate) fn par_position_any<T: Sync, F: Fn(&T) -> bool + Sync + Send>(items: &Vec<T>, f: F) -> (r: Option<usize>)
    requires
        forall|i: int| 0 <= i < items@.len() ==> f.requires((&items@[i],)),
    ensures
        r matches Some(i) ==> i < items@.len() && f.ensures((&items@[i as int],), true),
        r is None ==> forall|i: int| 0 <= i < items@.len() ==> f.ensures((&items@[i],), false),
{
    items.par_iter().position_any(f)
}

} // verus!

//! Data-parallel map over a vector.

use rayon::iter::{IndexedParallelIterator, IntoParallelRefIterator, ParallelIterator};
use vstd::prelude::*;

verus! {

/// Relies on rayon's indexed parallel iterators: `par_iter().map(f)` calls `f`
/// once on each item, and `collect_into_vec` stores each result at the
/// position of the item it came from.
#[verifier::external_body]
pub(crate) fn par_map<T: Sync, U: Send, F: Fn(&T) -> U + Sync + Send>(items: &Vec<T>, f: F) -> (r:
    Vec<U>)
    requires
        forall|i: int| 0 <= i < items@.len() ==> f.requires((&items@[i],)),
    ensures
        r@.len() == items@.len(),
        forall|i: int| 0 <= i < items@.len() ==> f.ensures((&items@[i],), #[trigger] r@[i]),
{
    let mut r = Vec::new();
    items.par_iter().map(f).collect_into_vec(&mut r);
    r
}

} // verus!

//! Applying a function to all elements of a list in parallel.
use rayon::iter::{IntoParallelRefIterator, ParallelIterator};
use vstd::prelude::*;

verus! {

/// `par_iter`, `map` and `collect` of `rayon` apply a function to each element of a
/// list, on any number of threads, and collect what it returns in the order of the
/// list.
#[verifier::external_body]
pub(crate) fn par_map<T: Sync, U: Send, F: Fn(&T) -> U + Sync + Send>(v: &Vec<T>, f: F) -> (r: Vec<
    U,
>)
    requires
        forall|i: int| 0 <= i < v@.len() ==> call_requires(f, (&#[trigger] v@[i],)),
    ensures
        r@.len() == v@.len(),
        forall|i: int| 0 <= i < v@.len() ==> call_ensures(f, (&v@[i],), #[trigger] r@[i]),
{
    v.par_iter().map(f).collect()
}

} // verus!

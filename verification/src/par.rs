//! Work on items that do not depend on one another.

use rayon::iter::{IntoParallelIterator, ParallelIterator};
use vstd::prelude::*;

verus! {

/// The results of `f` on `0`, `1` and so on up to but not including `count`, in that order.
///
/// This is `map` of rayon's `ParallelIterator`, over the parallel iterator of a range of `usize`,
/// followed by `collect` into a `Vec`. Claimed of them: `f` is called on the numbers of the range
/// alone, and place `i` of the vector holds what its call on `i` returned, on whichever thread
/// that call was made.
#[verifier::external_body]
pub(crate) fn par_map<U: Send, M: Fn(usize) -> U + Sync + Send>(count: usize, f: M) -> (results:
    Vec<U>)
    requires
        forall|i: usize| i < count ==> #[trigger] call_requires(f, (i,)),
    ensures
        results@.len() == count,
        forall|i: usize|
            i < count ==> call_ensures(f, (i,), #[trigger] results@[i as int]),
{
    (0..count).into_par_iter().map(f).collect()
}

} // verus!

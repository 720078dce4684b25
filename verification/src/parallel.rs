//! Rows computed in parallel.

use rayon::iter::{IntoParallelIterator, ParallelIterator};
use vstd::prelude::*;

verus! {

/// Calls `f` on every index below `n` and collects the results in order.
///
/// The body is rayon's parallel map over a range, collected into a vector: rayon calls
/// the closure once for each index, on whatever threads its pool has, and its
/// collection of an indexed iterator keeps the order of the range. The contract says
/// just that: one result for each index, each a result of `f` on that index. Left unsaid is
/// that rayon panics where it has no pool of threads: where the system refused the threads
/// when the pool was first built, with the number that was asked for by then.
#[verifier::external_body]
pub(crate) fn map_indices<T: Send, F: Fn(usize) -> T + Send + Sync>(n: usize, f: F) -> (r: Vec<T>)
    requires
        forall|i: usize| i < n ==> call_requires(f, (i,)),
    ensures
        r@.len() == n,
        forall|i: int| 0 <= i < n ==> call_ensures(f, (i as usize,), #[trigger] r@[i]),
{
    (0..n).into_par_iter().map(f).collect()
}

/// Asks for a global pool of the given number of threads.
///
/// The body is rayon's `ThreadPoolBuilder::build_global`, whose error is dropped. Whether
/// the pool can be built depends on the system and on what the process did before, and
/// nothing is claimed of it. A pool that is there already stays. Where the first pool of the
/// process cannot be built, rayon has none from then on, and later parallel work panics.
#[verifier::external_body]
pub(crate) fn configure_pool(threads: usize) {
    rayon::ThreadPoolBuilder::new().num_threads(threads).build_global().unwrap_or_default();
}

} // verus!

//! The size of the worker pool.

use vstd::prelude::*;

verus! {

/// The number of workers for a run: `n` for each unit of parallelism that
/// is available; nothing where that number is beyond what can be counted.
pub fn overdrive(available: usize, n: usize) -> (workers: Option<usize>)
    ensures
        workers == (if available * n <= usize::MAX {
            Some((available * n) as usize)
        } else {
            None
        }),
{
    available.checked_mul(n)
}

} // verus!

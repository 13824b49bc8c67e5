//! Work on every block of a set, spread over the threads of a pool.

use rayon::iter::{IndexedParallelIterator, IntoParallelRefMutIterator, ParallelIterator};
use vstd::prelude::*;

verus! {

/// A job that updates one block at a time.
pub trait BlockJob<T> {
    /// What a block must satisfy before the job runs on it.
    spec fn ready(&self, i: int, before: T) -> bool;

    /// How the job changes block `i`.
    spec fn done(&self, i: int, before: T, after: T) -> bool;

    /// Update block `i`.
    fn run(&self, i: usize, block: &mut T)
        requires
            self.ready(i as int, *old(block)),
        ensures
            self.done(i as int, *old(block), *final(block)),
    ;
}

/// Runs the job on every block through `rayon`'s `par_iter_mut`, `enumerate`
/// and `for_each`: each block is visited once, with its index, and no block is
/// added, removed or moved.
#[verifier::external_body]
pub(crate) fn for_each_block<T: Send, J: BlockJob<T> + Sync>(blocks: &mut Vec<T>, job: &J)
    requires
        forall|i: int| 0 <= i < old(blocks)@.len() ==> #[trigger] job.ready(i, old(blocks)@[i]),
    ensures
        final(blocks)@.len() == old(blocks)@.len(),
        forall|i: int|
            0 <= i < old(blocks)@.len() ==> #[trigger] job.done(
                i,
                old(blocks)@[i],
                final(blocks)@[i],
            ),
{
    blocks.par_iter_mut().enumerate().for_each(|(i, block)| job.run(i, block));
}

} // verus!

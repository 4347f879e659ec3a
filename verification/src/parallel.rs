//! The doors to the thread pool and to the chunk splitter.
//!
//! Everything in this file is believed, not proved: each function states what
//! the library it calls documents.
use arbitrary_chunks::ArbitraryChunks;
use rayon::iter::IndexedParallelIterator;
use rayon::iter::IntoParallelIterator;
use rayon::iter::ParallelIterator;
use vstd::prelude::*;
use crate::model::offset;

verus! {

/// `rayon::current_num_threads`: the number of threads of the pool that runs
/// the parallel work. Nothing is claimed of the number.
#[verifier::external_body]
pub(crate) fn worker_threads() -> usize {
    rayon::current_num_threads()
}

/// `into_par_iter`, `enumerate` and `for_each` of rayon on a vector: `op` is
/// called once on every item together with the item's index, on the threads of
/// the pool, and all the calls have returned when this function returns.
#[verifier::external_body]
pub(crate) fn par_for_each_indexed<X: Send, F: Fn(usize, X) + Sync + Send>(items: Vec<X>, op: F) -> (done: ())
    requires
        forall|i: int| 0 <= i < items@.len() ==> call_requires(op, (i as usize, #[trigger] items@[i])),
    ensures
        forall|i: int| 0 <= i < items@.len() ==> call_ensures(op, (i as usize, #[trigger] items@[i]), done),
{
    items.into_par_iter().enumerate().for_each(|(i, x)| op(i, x))
}

/// `into_par_iter`, `enumerate`, `map` and `collect` of rayon on a vector:
/// `op` is called once on every item together with the item's index, on the
/// threads of the pool, and the results come back in the order of the items.
#[verifier::external_body]
pub(crate) fn par_map_indexed<X: Send, Y: Send, F: Fn(usize, X) -> Y + Sync + Send>(
    items: Vec<X>,
    op: F,
) -> (results: Vec<Y>)
    requires
        forall|i: int| 0 <= i < items@.len() ==> call_requires(op, (i as usize, #[trigger] items@[i])),
    ensures
        results@.len() == items@.len(),
        forall|i: int|
            0 <= i < items@.len() ==> call_ensures(op, (i as usize, items@[i]), #[trigger] results@[i]),
{
    items.into_par_iter().enumerate().map(|(i, x)| op(i, x)).collect()
}

/// `arbitrary_chunks_mut` of arbitrary-chunks, collected: `data` is cut into
/// consecutive chunks, one per entry of `counts` and of that length. The
/// entries must add up to the length of `data`, and there must be at least
/// one. What is later written through a chunk is what `data` holds at that
/// place when the chunks are gone.
#[verifier::external_body]
pub(crate) fn split_by_counts<'a, T>(data: &'a mut [T], counts: &[usize]) -> (chunks: Vec<&'a mut [T]>)
    requires
        counts@.len() >= 1,
        offset(counts@, counts@.len() as int) == old(data)@.len(),
    ensures
        chunks@.len() == counts@.len(),
        forall|i: int|
            #![trigger chunks@[i]]
            0 <= i < counts@.len() ==> chunks@[i]@ == old(data)@.subrange(
                offset(counts@, i),
                offset(counts@, i + 1),
            ),
        final(data)@.len() == old(data)@.len(),
        forall|i: int, j: int|
            0 <= i < counts@.len() && 0 <= j < counts@[i] ==> final(data)@[offset(counts@, i) + j] == (
            #[trigger] final(chunks@[i])@[j]),
{
    data.arbitrary_chunks_mut(counts).collect()
}

} // verus!

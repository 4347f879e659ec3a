//! What a tuning policy is asked, and what it can answer.
use vstd::prelude::*;

verus! {

/// The ways to sort one bucket.
#[derive(Clone, Copy, Debug, PartialEq, Eq, Structural)]
pub enum Strategy {
    /// A comparison sort on the key bytes, for small buckets.
    Fallback,
    /// In-place partition by one byte on the calling thread, then each
    /// segment in turn.
    SingleThreadedMsd,
    /// Partition by one byte with the histograms and the scatter done tile by
    /// tile on the worker threads.
    ParallelHistogramMsd,
    /// Partition by one byte where the tiles are sorted locally and the
    /// segments then gather from the tiles.
    TileRecombination,
    /// One stable counting pass per level, from the least significant level
    /// up, with no recursion.
    LsdMultiPass,
}

/// A tuning policy. Any answer is a correct one: the policy decides how fast a
/// bucket is sorted, not whether.
pub trait Tuner {
    /// Picks the strategy for a bucket of `len` elements of which
    /// `remaining_levels` key bytes are still to be sorted, with `threads`
    /// worker threads at hand.
    fn pick_strategy(&self, len: usize, remaining_levels: usize, threads: usize) -> Strategy;

    /// The size from which the histogram of a bucket is computed in parallel.
    fn parallel_count_threshold(&self) -> usize;
}

} // verus!

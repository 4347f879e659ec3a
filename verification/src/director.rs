//! The director: picks a strategy for a bucket and sees the sort through,
//! level by level.
use vstd::prelude::*;
use crate::model::{is_histogram, lemma_segment_bounds, offset, partitioned};
use crate::parallel::{par_for_each_indexed, split_by_counts, worker_threads};
use crate::radix_key::{sorted_from, RadixKey};
use crate::segments::{
    lemma_partitioned_is_sorted_at_last_level, lemma_refined_is_sorted, segment, segments_refined,
};
use crate::sorts::comparative_sort::comparative_sort;
use crate::sorts::lsb_sort::lsb_sort;
use crate::sorts::recombinating_sort::recombinating_sort_adapter;
use crate::sorts::scanning_sort::scanning_sort_adapter;
use crate::sorts::ska_sort::ska_sort_adapter;
use crate::tuner::{Strategy, Tuner};
use crate::tuning_parameters::SMALL_BUCKET_THRESHOLD;
use crate::utils::{cdiv, get_tile_counts, par_get_counts};

verus! {

/// Sorts `bucket` by the key bytes of the levels `level..LEVELS`.
///
/// `counts` is the histogram of the bucket at `level`. A bucket of fewer than
/// two elements is left as it is, and one below the small-bucket threshold
/// goes to the comparison sort. Otherwise the tuner picks the strategy; the
/// partitioning strategies go on to sort every segment at the next level.
pub fn director<T: RadixKey + Copy + Send + Sync, Tn: Tuner + Sync>(
    tuner: &Tn,
    bucket: &mut [T],
    counts: &[usize; 256],
    level: usize,
)
    requires
        level < T::LEVELS,
        is_histogram(counts@, old(bucket)@, level as int),
    ensures
        final(bucket)@.len() == old(bucket)@.len(),
        final(bucket)@.to_multiset() == old(bucket)@.to_multiset(),
        sorted_from(final(bucket)@, level as int),
        old(bucket)@.len() < 2 ==> final(bucket)@ == old(bucket)@,
    decreases T::LEVELS - level, 2int,
{
    let len: usize = bucket.len();
    if len < 2 {
        return ;
    }
    if len < SMALL_BUCKET_THRESHOLD {
        comparative_sort(bucket, level);
        return ;
    }
    let threads: usize = worker_threads();
    match tuner.pick_strategy(len, T::LEVELS - level, threads) {
        Strategy::Fallback => {
            comparative_sort(bucket, level);
        },
        Strategy::LsdMultiPass => {
            lsb_sort(bucket, level);
        },
        Strategy::SingleThreadedMsd => {
            ska_sort_adapter(tuner, bucket, counts, level);
        },
        Strategy::ParallelHistogramMsd => {
            let tile_size: usize = tile_size_for(len, threads);
            let tile_counts = get_tile_counts(bucket, tile_size, level);
            scanning_sort_adapter(tuner, bucket, counts, tile_counts.as_slice(), tile_size, level);
        },
        Strategy::TileRecombination => {
            let tile_size: usize = tile_size_for(len, threads);
            let tile_counts = get_tile_counts(bucket, tile_size, level);
            recombinating_sort_adapter(tuner, bucket, counts, tile_counts.as_slice(), tile_size, level);
        },
    }
}

/// The tile size that gives every worker one tile: the length divided by the
/// number of workers, rounded up; with no worker known, one tile for all.
pub fn tile_size_for(len: usize, threads: usize) -> (tile_size: usize)
    requires
        len > 0,
    ensures
        tile_size > 0,
        tile_size == (len + (if threads == 0 { 1int } else { threads as int }) - 1) / (if threads == 0 {
            1int
        } else {
            threads as int
        }),
{
    let workers: usize = if threads == 0 {
        1
    } else {
        threads
    };
    assert((len + workers - 1) / (workers as int) >= 1) by (nonlinear_arith)
        requires
            len >= 1,
            workers >= 1,
    ;
    cdiv(len, workers)
}

/// Sorts a bucket from `level` on: takes its histogram at `level`, in
/// parallel where the tuner finds the bucket large enough, and hands both to
/// the director.
pub fn sort_bucket<T: RadixKey + Copy + Send + Sync, Tn: Tuner + Sync>(
    tuner: &Tn,
    bucket: &mut [T],
    level: usize,
)
    requires
        level < T::LEVELS,
    ensures
        final(bucket)@.len() == old(bucket)@.len(),
        final(bucket)@.to_multiset() == old(bucket)@.to_multiset(),
        sorted_from(final(bucket)@, level as int),
        old(bucket)@.len() < 2 ==> final(bucket)@ == old(bucket)@,
    decreases T::LEVELS - level, 3int,
{
    if bucket.len() < 2 {
        return ;
    }
    let counts: [usize; 256] = par_get_counts(bucket, level, tuner.parallel_count_threshold());
    director(tuner, bucket, &counts, level);
}

/// Sorts the chunks one after the other on the calling thread.
pub fn sort_chunks<T: RadixKey + Copy + Send + Sync, Tn: Tuner + Sync>(
    tuner: &Tn,
    chunks: Vec<&mut [T]>,
    level: usize,
)
    requires
        level < T::LEVELS,
    ensures
        forall|i: int|
            #![trigger chunks@[i]]
            0 <= i < chunks@.len() ==> final(chunks@[i])@.to_multiset() == chunks@[i]@.to_multiset()
                && sorted_from(final(chunks@[i])@, level as int),
    decreases T::LEVELS - level, 4int,
{
    let ghost all = chunks@;
    let mut chunks = chunks;
    while chunks.len() > 0
        invariant
            level < T::LEVELS,
            chunks@.len() <= all.len(),
            forall|i: int| 0 <= i < chunks@.len() ==> chunks@[i] == all[i],
            forall|i: int|
                #![trigger all[i]]
                chunks@.len() <= i < all.len() ==> final(all[i])@.to_multiset() == all[i]@.to_multiset()
                    && sorted_from(final(all[i])@, level as int),
        decreases chunks.len(),
    {
        let chunk: &mut [T] = chunks.pop().unwrap();
        sort_bucket(tuner, chunk, level);
    }
}

/// Sorts every segment of a partitioned bucket from `level` on, in parallel
/// on the worker threads or one after the other on the calling thread.
pub fn sort_segments<T: RadixKey + Copy + Send + Sync, Tn: Tuner + Sync>(
    tuner: &Tn,
    bucket: &mut [T],
    counts: &[usize; 256],
    level: usize,
    parallel: bool,
)
    requires
        level < T::LEVELS,
        offset(counts@, 256) == old(bucket)@.len(),
    ensures
        segments_refined(old(bucket)@, final(bucket)@, counts@, level as int),
    decreases T::LEVELS - level, 5int,
{
    let chunks: Vec<&mut [T]> = split_by_counts(bucket, counts.as_slice());
    let ghost all = chunks@;
    if parallel {
        let sort_one = |index: usize, chunk: &mut [T]|
            ensures
                final(chunk)@.to_multiset() == old(chunk)@.to_multiset(),
                sorted_from(final(chunk)@, level as int),
            { sort_bucket(tuner, chunk, level) };
        par_for_each_indexed(chunks, sort_one);
        proof {
            assert forall|i: int| #![trigger all[i]] 0 <= i < all.len() implies final(all[i])@.to_multiset()
                == all[i]@.to_multiset() && sorted_from(final(all[i])@, level as int) by {
                assert(call_ensures(sort_one, (i as usize, all[i]), ()));
            }
        }
    } else {
        sort_chunks(tuner, chunks, level);
    }
    proof {
        assert forall|b: int| 0 <= b < 256 implies #[trigger] segment(bucket@, counts@, b) == final(all[b])@ by {
            lemma_segment_bounds(counts@, b);
            vstd::seq_lib::to_multiset_len(final(all[b])@);
            vstd::seq_lib::to_multiset_len(all[b]@);
            assert forall|j: int| 0 <= j < counts@[b] implies segment(bucket@, counts@, b)[j] == final(all[b])@[j] by {
                assert(bucket@[offset(counts@, b) + j] == final(all[b])@[j]);
            }
            assert(segment(bucket@, counts@, b) =~= final(all[b])@);
        }
        assert forall|b: int| 0 <= b < 256 implies (#[trigger] segment(bucket@, counts@, b)).to_multiset()
            == segment(old(bucket)@, counts@, b).to_multiset() by {
            assert(segment(bucket@, counts@, b) == final(all[b])@);
        }
        assert forall|b: int| 0 <= b < 256 implies sorted_from(
            #[trigger] segment(bucket@, counts@, b),
            level as int,
        ) by {
            assert(segment(bucket@, counts@, b) == final(all[b])@);
        }
    }
}

/// Finishes the sort of a bucket that has been partitioned by the byte at
/// `level`: at the last level nothing is left to do; before it, every segment
/// is sorted from the next level on.
pub fn sort_partitioned<T: RadixKey + Copy + Send + Sync, Tn: Tuner + Sync>(
    tuner: &Tn,
    bucket: &mut [T],
    counts: &[usize; 256],
    level: usize,
    parallel: bool,
)
    requires
        level < T::LEVELS,
        offset(counts@, 256) == old(bucket)@.len(),
        partitioned(old(bucket)@, level as int, counts@),
    ensures
        final(bucket)@.len() == old(bucket)@.len(),
        final(bucket)@.to_multiset() == old(bucket)@.to_multiset(),
        sorted_from(final(bucket)@, level as int),
    decreases T::LEVELS - level, 0int,
{
    if level + 1 == T::LEVELS {
        proof {
            lemma_partitioned_is_sorted_at_last_level(bucket@, counts@, level as int);
        }
        return ;
    }
    sort_segments(tuner, bucket, counts, level + 1, parallel);
    proof {
        lemma_refined_is_sorted(old(bucket)@, bucket@, counts@, level as int);
    }
}

} // verus!

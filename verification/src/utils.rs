//! Histograms, prefix sums and tiling.
use vstd::prelude::*;
use crate::model::{
    count, is_histogram, is_prefix_sums, lemma_histogram_total, lemma_offset_monotone,
    lemma_select_bytes, lemma_select_push, offset,
};
use crate::parallel::{par_map_indexed, worker_threads};
use crate::radix_key::RadixKey;
use crate::tiles::{are_tile_histograms, column_sum, lemma_tile_histograms_total, split_tiles};
use vstd::slice::slice_to_vec;

verus! {

/// `copy_from_slice` of std: overwrites the destination with the source, which
/// must have the same length (std panics otherwise).
pub assume_specification<V: Copy>[ <[V]>::copy_from_slice ](dst: &mut [V], src: &[V])
    requires
        old(dst)@.len() == src@.len(),
    ensures
        final(dst)@ == src@,
;

/// Ceiling division of `a` by `b`.
pub fn cdiv(a: usize, b: usize) -> (q: usize)
    requires
        b > 0,
    ensures
        q == (a + b - 1) / (b as int),
{
    let q: usize = a / b;
    let r: usize = a % b;
    assert(a == q * b + r && q * b >= q) by (nonlinear_arith)
        requires
            r == a % b,
            q == a / b,
            b > 0,
    ;
    if r == 0 {
        assert((q * b + b - 1) / (b as int) == q) by (nonlinear_arith)
            requires
                b > 0,
                q >= 0,
        ;
        q
    } else {
        assert(((q + 1) * b + (r - 1)) / (b as int) == q + 1) by (nonlinear_arith)
            requires
                b > 0,
                q >= 0,
                0 < r < b,
        ;
        assert(a + b - 1 == (q + 1) * b + (r - 1)) by (nonlinear_arith)
            requires
                a == q * b + r,
        ;
        q + 1
    }
}

/// Counts, for each byte value, the elements of `bucket` that have it at `level`.
pub fn get_counts<T: RadixKey>(bucket: &[T], level: usize) -> (counts: [usize; 256])
    requires
        level < T::LEVELS,
    ensures
        is_histogram(counts@, bucket@, level as int),
        offset(counts@, 256) == bucket@.len(),
{
    let mut counts: [usize; 256] = [0usize; 256];
    let mut i: usize = 0;
    proof {
        assert(bucket@.take(0) =~= Seq::<T>::empty());
    }
    while i < bucket.len()
        invariant
            i <= bucket.len(),
            level < T::LEVELS,
            is_histogram(counts@, bucket@.take(i as int), level as int),
        decreases bucket.len() - i,
    {
        let byte: u8 = bucket[i].get_level(level);
        proof {
            let prev = bucket@.take(i as int);
            assert(bucket@.take(i + 1) =~= prev.push(bucket@[i as int]));
            lemma_select_bytes(prev, level as int, byte as int);
            assert forall|b: int| 0 <= b < 256 implies count(bucket@.take(i + 1), level as int, b)
                == count(prev, level as int, b) + if b == byte { 1int } else { 0int } by {
                lemma_select_push(prev, bucket@[i as int], level as int, b);
            }
        }
        counts[byte as usize] = counts[byte as usize] + 1;
        i = i + 1;
    }
    proof {
        assert(bucket@.take(i as int) =~= bucket@);
        lemma_histogram_total(counts@, bucket@, level as int);
    }
    counts
}

/// Turns counts into running offsets: entry `b` of the result is the sum of the
/// entries of `counts` below `b`, the index at which segment `b` starts.
pub fn get_prefix_sums(counts: &[usize; 256]) -> (sums: [usize; 256])
    requires
        offset(counts@, 256) <= usize::MAX,
    ensures
        is_prefix_sums(sums@, counts@),
{
    let mut sums: [usize; 256] = [0usize; 256];
    let mut running: usize = 0;
    let mut b: usize = 0;
    while b < 256
        invariant
            b <= 256,
            running == offset(counts@, b as int),
            offset(counts@, 256) <= usize::MAX,
            forall|c: int| 0 <= c < b ==> #[trigger] sums@[c] == offset(counts@, c),
        decreases 256 - b,
    {
        sums[b] = running;
        proof {
            lemma_offset_monotone(counts@, b + 1, 256);
        }
        running = running + counts[b];
        b = b + 1;
    }
    sums
}

/// A temporary buffer of the size of `bucket`. It starts out as a copy of the
/// bucket, so that every slot of it holds a value.
pub fn get_tmp_bucket<T: Copy>(bucket: &[T]) -> (tmp: Vec<T>)
    ensures
        tmp@ == bucket@,
{
    slice_to_vec(bucket)
}

/// Overwrites the part of `dst` that starts at `at` with `src`, and nothing else.
pub fn copy_into<T: Copy>(dst: &mut [T], at: usize, src: &[T])
    requires
        at + src@.len() <= old(dst)@.len(),
    ensures
        final(dst)@ == old(dst)@.subrange(0, at as int) + src@ + old(dst)@.subrange(
            at + src@.len(),
            old(dst)@.len() as int,
        ),
{
    let (_head, rest) = dst.split_at_mut(at);
    let (mid, _tail) = rest.split_at_mut(src.len());
    mid.copy_from_slice(src);
}

/// Counts the bytes at `level` tile by tile, the tiles in parallel: one
/// histogram per tile of `tile_size` elements, in tile order.
pub fn get_tile_counts<T: RadixKey + Sync>(bucket: &[T], tile_size: usize, level: usize) -> (tile_counts:
    Vec<[usize; 256]>)
    requires
        tile_size > 0,
        level < T::LEVELS,
    ensures
        are_tile_histograms(tile_counts@, bucket@, tile_size as int, level as int),
{
    let tiles: Vec<&[T]> = split_tiles(bucket, tile_size);
    let count_tile = |t: usize, tile: &[T]| -> (counts: [usize; 256])
        ensures
            is_histogram(counts@, tile@, level as int),
        { get_counts(tile, level) };
    par_map_indexed(tiles, count_tile)
}

/// The column sums never decrease with the number of tiles.
pub proof fn lemma_column_sum_monotone(tile_counts: Seq<[usize; 256]>, b: int, m: int, n: int)
    requires
        0 <= m <= n,
    ensures
        0 <= column_sum(tile_counts, b, m) <= column_sum(tile_counts, b, n),
    decreases n,
{
    if m < n {
        lemma_column_sum_monotone(tile_counts, b, m, n - 1);
    } else if n > 0 {
        lemma_column_sum_monotone(tile_counts, b, m - 1, n - 1);
    }
}

/// Adds up the histograms of the tiles, entry by entry.
pub fn aggregate_tile_counts(tile_counts: &[[usize; 256]]) -> (counts: [usize; 256])
    requires
        forall|b: int| 0 <= b < 256 ==> column_sum(tile_counts@, b, tile_counts@.len() as int) <= usize::MAX,
    ensures
        forall|b: int| 0 <= b < 256 ==> #[trigger] counts@[b] == column_sum(tile_counts@, b, tile_counts@.len() as int),
{
    let mut counts: [usize; 256] = [0usize; 256];
    let n: usize = tile_counts.len();
    let mut t: usize = 0;
    while t < n
        invariant
            t <= n,
            n == tile_counts@.len(),
            forall|b: int| 0 <= b < 256 ==> column_sum(tile_counts@, b, n as int) <= usize::MAX,
            forall|b: int| 0 <= b < 256 ==> #[trigger] counts@[b] == column_sum(tile_counts@, b, t as int),
        decreases n - t,
    {
        let tile: &[usize; 256] = &tile_counts[t];
        let mut b: usize = 0;
        while b < 256
            invariant
                b <= 256,
                t < n,
                n == tile_counts@.len(),
                tile@ == tile_counts@[t as int]@,
                forall|c: int| 0 <= c < 256 ==> column_sum(tile_counts@, c, n as int) <= usize::MAX,
                forall|c: int| 0 <= c < b ==> #[trigger] counts@[c] == column_sum(tile_counts@, c, t + 1),
                forall|c: int| b <= c < 256 ==> #[trigger] counts@[c] == column_sum(tile_counts@, c, t as int),
            decreases 256 - b,
        {
            proof {
                lemma_column_sum_monotone(tile_counts@, b as int, t + 1, n as int);
            }
            counts[b] = counts[b] + tile[b];
            b = b + 1;
        }
        t = t + 1;
    }
    counts
}

/// The histogram of `bucket` at `level`. A bucket of at least
/// `par_count_threshold` elements is counted tile by tile on the worker
/// threads, a smaller one on the calling thread.
pub fn par_get_counts<T: RadixKey + Sync>(bucket: &[T], level: usize, par_count_threshold: usize) -> (counts:
    [usize; 256])
    requires
        level < T::LEVELS,
    ensures
        is_histogram(counts@, bucket@, level as int),
        offset(counts@, 256) == bucket@.len(),
{
    let len: usize = bucket.len();
    if len == 0 || len < par_count_threshold {
        return get_counts(bucket, level);
    }
    let threads: usize = worker_threads();
    let tile_size: usize = cdiv(len, if threads == 0 { 1 } else { threads });
    if tile_size == 0 {
        return get_counts(bucket, level);
    }
    let tile_counts = get_tile_counts(bucket, tile_size, level);
    proof {
        assert forall|b: int| 0 <= b < 256 implies column_sum(
            tile_counts@,
            b,
            tile_counts@.len() as int,
        ) == count(bucket@, level as int, b) by {
            lemma_tile_histograms_total(tile_counts@, bucket@, tile_size as int, level as int, b);
        }
        assert forall|b: int| 0 <= b < 256 implies count(bucket@, level as int, b) <= len by {
            lemma_select_bytes(bucket@, level as int, b);
        }
    }
    let counts = aggregate_tile_counts(tile_counts.as_slice());
    proof {
        lemma_histogram_total(counts@, bucket@, level as int);
    }
    counts
}

} // verus!

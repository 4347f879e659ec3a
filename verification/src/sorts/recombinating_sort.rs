//! Tile recombination: every tile is sorted locally into a shared temporary
//! buffer, then every byte segment of the bucket gathers its share from each
//! tile.
use vstd::prelude::*;
use vstd::slice::slice_subrange;
use crate::model::{
    count, is_histogram, is_prefix_sums, lemma_histogram_total, lemma_partition_segment,
    lemma_segment_bounds, lemma_segments_are_grouped, lemma_stable_partition_permutes, offset,
    partitioned, select, stable_partition,
};
use crate::director::sort_partitioned;
use crate::parallel::{par_for_each_indexed, par_map_indexed, split_by_counts};
use crate::radix_key::{sorted_from, RadixKey};
use crate::segments::lemma_stable_partition_is_partitioned;
use crate::sorts::out_of_place_sort::out_of_place_sort;
use crate::tiles::{
    are_tile_histograms, lemma_tile_bounds, lemma_tiles_select, tile, tile_lengths, tile_start,
    tiles_select,
};
use crate::tuner::Tuner;
use crate::utils::{copy_into, get_prefix_sums, get_tmp_bucket};

verus! {

/// What segment `b` gathers from the first `n` tiles of the temporary buffer:
/// from each tile, in tile order, the stretch that the tile's own offsets and
/// counts give for `b`.
pub open spec fn gathered<T>(
    tmp: Seq<T>,
    locals: Seq<([usize; 256], [usize; 256])>,
    tile_size: int,
    b: int,
    n: int,
) -> Seq<T>
    decreases n,
{
    if n <= 0 {
        Seq::empty()
    } else {
        gathered(tmp, locals, tile_size, b, n - 1) + tmp.subrange(
            (n - 1) * tile_size + locals[n - 1].1@[b],
            (n - 1) * tile_size + locals[n - 1].1@[b] + locals[n - 1].0@[b],
        )
    }
}

/// Tile `t` of the temporary buffer holds tile `t` of `src`, partitioned by
/// the byte at `level`, and `locals` holds that tile's histogram and offsets.
pub open spec fn tile_is_sorted<T: RadixKey>(
    tmp: Seq<T>,
    locals: Seq<([usize; 256], [usize; 256])>,
    tile_counts: Seq<[usize; 256]>,
    src: Seq<T>,
    tile_size: int,
    level: int,
    t: int,
) -> bool {
    &&& tmp.subrange(t * tile_size, t * tile_size + tile(src, tile_size, t).len())
        == stable_partition(tile(src, tile_size, t), level)
    &&& locals[t].0@ == tile_counts[t]@
    &&& is_prefix_sums(locals[t].1@, locals[t].0@)
}

/// Every stretch that segment `b` reads lies inside the temporary buffer.
pub open spec fn reads_in_bounds(
    tmp_len: int,
    locals: Seq<([usize; 256], [usize; 256])>,
    tile_size: int,
    b: int,
) -> bool {
    forall|t: int|
        0 <= t < locals.len() ==> t * tile_size + (#[trigger] locals[t]).1@[b] + locals[t].0@[b]
            <= tmp_len
}

/// What a segment gathers grows tile by tile, by the count that the tile has
/// for the segment's byte.
pub proof fn lemma_gathered_len<T>(
    tmp: Seq<T>,
    locals: Seq<([usize; 256], [usize; 256])>,
    tile_size: int,
    b: int,
    m: int,
    n: int,
)
    requires
        0 < tile_size,
        0 <= m <= n <= locals.len(),
        reads_in_bounds(tmp.len() as int, locals, tile_size, b),
    ensures
        gathered(tmp, locals, tile_size, b, m).len() <= gathered(tmp, locals, tile_size, b, n).len(),
        n > 0 ==> gathered(tmp, locals, tile_size, b, n).len() == gathered(
            tmp,
            locals,
            tile_size,
            b,
            n - 1,
        ).len() + locals[n - 1].0@[b],
    decreases n - m,
{
    if n > 0 {
        assert((n - 1) * tile_size >= 0) by (nonlinear_arith)
            requires
                n >= 1,
                tile_size > 0,
        ;
        assert((n - 1) * tile_size + locals[n - 1].1@[b] + locals[n - 1].0@[b] <= tmp.len());
    }
    if m < n {
        lemma_gathered_len(tmp, locals, tile_size, b, m, n - 1);
    }
}

/// Sorts tile `t` of `src` by the byte at `level` into `tmp_tile`, and hands
/// back the tile's histogram together with its running offsets.
pub fn sort_tile<T: RadixKey + Copy>(
    src: &[T],
    tmp_tile: &mut [T],
    tile_counts: &[[usize; 256]],
    tile_size: usize,
    t: usize,
    level: usize,
) -> (local: ([usize; 256], [usize; 256]))
    requires
        level < T::LEVELS,
        tile_size > 0,
        are_tile_histograms(tile_counts@, src@, tile_size as int, level as int),
        t < tile_counts@.len(),
        old(tmp_tile)@.len() == tile(src@, tile_size as int, t as int).len(),
    ensures
        final(tmp_tile)@ == stable_partition(tile(src@, tile_size as int, t as int), level as int),
        local.0@ == tile_counts@[t as int]@,
        is_prefix_sums(local.1@, local.0@),
{
    let len: usize = src.len();
    proof {
        lemma_tile_bounds(len as int, tile_size as int, t as int);
    }
    let start: usize = t * tile_size;
    let end: usize = if len - start <= tile_size {
        len
    } else {
        start + tile_size
    };
    let chunk: &[T] = slice_subrange(src, start, end);
    let counts: &[usize; 256] = &tile_counts[t];
    proof {
        assert(chunk@ == tile(src@, tile_size as int, t as int));
        assert(is_histogram(tile_counts@[t as int]@, tile(src@, tile_size as int, t as int), level as int));
        lemma_histogram_total(counts@, chunk@, level as int);
    }
    out_of_place_sort(chunk, tmp_tile, counts, level);
    let sums: [usize; 256] = get_prefix_sums(counts);
    (*counts, sums)
}

/// Fills one byte segment of the bucket: walks the tiles in order and copies,
/// from each tile's part of the temporary buffer, the stretch that holds the
/// elements with byte `index`.
pub fn gather_segment<T: Copy>(
    index: usize,
    chunk: &mut [T],
    tmp: &[T],
    locals: &[([usize; 256], [usize; 256])],
    tile_size: usize,
)
    requires
        index < 256,
        tile_size > 0,
        reads_in_bounds(tmp@.len() as int, locals@, tile_size as int, index as int),
        old(chunk)@.len() == gathered(
            tmp@,
            locals@,
            tile_size as int,
            index as int,
            locals@.len() as int,
        ).len(),
    ensures
        final(chunk)@ == gathered(tmp@, locals@, tile_size as int, index as int, locals@.len() as int),
{
    let n: usize = locals.len();
    let tmp_len: usize = tmp.len();
    let chunk_len: usize = chunk.len();
    let mut read_offset: usize = 0;
    let mut write_offset: usize = 0;
    let mut t: usize = 0;
    let ghost ts = tile_size as int;
    let ghost b = index as int;
    proof {
        assert(chunk@.subrange(0, 0) =~= Seq::<T>::empty());
    }
    while t < n
        invariant
            t <= n,
            tmp_len == tmp@.len(),
            chunk_len == chunk@.len(),
            n == locals@.len(),
            index < 256,
            tile_size > 0,
            ts == tile_size as int,
            b == index as int,
            reads_in_bounds(tmp@.len() as int, locals@, ts, b),
            chunk@.len() == gathered(tmp@, locals@, ts, b, n as int).len(),
            t < n ==> read_offset == t * tile_size,
            write_offset == gathered(tmp@, locals@, ts, b, t as int).len(),
            chunk@.subrange(0, write_offset as int) == gathered(tmp@, locals@, ts, b, t as int),
        decreases n - t,
    {
        proof {
            lemma_gathered_len(tmp@, locals@, ts, b, t + 1, n as int);
            lemma_gathered_len(tmp@, locals@, ts, b, t as int, t + 1);
            assert(t * ts + locals@[t as int].1@[b] + locals@[t as int].0@[b] <= tmp@.len());
        }
        let read_start: usize = read_offset + locals[t].1[index];
        let read_end: usize = read_start + locals[t].0[index];
        let read_slice: &[T] = slice_subrange(tmp, read_start, read_end);
        let ghost before = chunk@;
        copy_into(chunk, write_offset, read_slice);
        proof {
            let g = gathered(tmp@, locals@, ts, b, t as int);
            assert(chunk@.subrange(0, write_offset + read_slice@.len()) =~= g + read_slice@) by {
                assert(before.subrange(0, write_offset as int) == g);
            }
        }
        write_offset = write_offset + locals[t].0[index];
        t = t + 1;
        if t < n {
            proof {
                assert(t * ts == (t - 1) * ts + ts) by (nonlinear_arith);
                assert(t * ts + locals@[t as int].1@[b] + locals@[t as int].0@[b] <= tmp@.len());
            }
            read_offset = read_offset + tile_size;
        }
    }
    proof {
        assert(chunk@.subrange(0, chunk@.len() as int) =~= chunk@);
    }
}

/// Partitions `bucket` by the key byte at `level`: 256 segments in ascending
/// byte order, each in the order that its elements had before.
///
/// `tile_counts` holds the histogram of every tile of `tile_size` elements,
/// `counts` the histogram of the whole bucket. The tiles are sorted one by one
/// into a temporary buffer, all in parallel; then the segments gather their
/// elements from the tiles, all in parallel again.
pub fn recombinating_sort<T: RadixKey + Copy + Send + Sync>(
    bucket: &mut [T],
    counts: &[usize; 256],
    tile_counts: &[[usize; 256]],
    tile_size: usize,
    level: usize,
)
    requires
        level < T::LEVELS,
        tile_size > 0,
        is_histogram(counts@, old(bucket)@, level as int),
        are_tile_histograms(tile_counts@, old(bucket)@, tile_size as int, level as int),
    ensures
        final(bucket)@ == stable_partition(old(bucket)@, level as int),
        final(bucket)@.to_multiset() == old(bucket)@.to_multiset(),
        partitioned(final(bucket)@, level as int, counts@),
{
    let len: usize = bucket.len();
    let ghost src = bucket@;
    let ghost ts = tile_size as int;
    let ghost lv = level as int;
    proof {
        lemma_histogram_total(counts@, src, lv);
        lemma_stable_partition_permutes(src, lv);
        lemma_stable_partition_is_partitioned(counts@, src, lv);
    }
    if len == 0 {
        proof {
            assert(stable_partition(src, lv) =~= src);
        }
        return ;
    }
    let mut tmp: Vec<T> = get_tmp_bucket(bucket);
    let lens: Vec<usize> = tile_lengths(len, tile_size);
    proof {
        lemma_tile_bounds(len as int, ts, 0);
        lemma_tile_bounds(len as int, ts, lens@.len() as int);
    }
    let source: &[T] = bucket;
    let tmp_tiles: Vec<&mut [T]> = split_by_counts(tmp.as_mut_slice(), lens.as_slice());
    let ghost tmp_tiles_view = tmp_tiles@;
    let sort_one = |t: usize, tmp_tile: &mut [T]| -> (local: ([usize; 256], [usize; 256]))
        requires
            t < tile_counts@.len(),
            old(tmp_tile)@.len() == tile(source@, tile_size as int, t as int).len(),
        ensures
            final(tmp_tile)@ == stable_partition(tile(source@, tile_size as int, t as int), level as int),
            local.0@ == tile_counts@[t as int]@,
            is_prefix_sums(local.1@, local.0@),
        { sort_tile(source, tmp_tile, tile_counts, tile_size, t, level) };
    proof {
        assert forall|i: int| 0 <= i < tmp_tiles@.len() implies call_requires(
            sort_one,
            (i as usize, #[trigger] tmp_tiles@[i]),
        ) by {
            lemma_tile_bounds(len as int, ts, i);
            assert(offset(lens@, i) == tile_start(len as int, ts, i));
            assert(offset(lens@, i + 1) == tile_start(len as int, ts, i + 1));
        }
    }
    let locals: Vec<([usize; 256], [usize; 256])> = par_map_indexed(tmp_tiles, sort_one);
    let n: usize = locals.len();
    proof {
        // Every tile of the temporary buffer now holds its tile of the bucket, partitioned.
        assert forall|t: int| 0 <= t < n implies #[trigger] tile_is_sorted(
            tmp@,
            locals@,
            tile_counts@,
            src,
            ts,
            lv,
            t,
        ) by {
            lemma_tile_bounds(len as int, ts, t);
            assert(lens@[t] == tile(src, ts, t).len());
            assert(call_ensures(sort_one, (t as usize, tmp_tiles_view[t]), locals@[t]));
            assert(offset(lens@, t) == tile_start(len as int, ts, t));
            assert(offset(lens@, t + 1) == tile_start(len as int, ts, t + 1));
            let done = final(tmp_tiles_view[t])@;
            assert(done.len() == lens@[t]) by {
                lemma_stable_partition_permutes(tile(src, ts, t), lv);
            }
            assert forall|j: int| 0 <= j < lens@[t] implies tmp@.subrange(t * ts, t * ts + lens@[t])[j]
                == done[j] by {
                assert(tmp@[offset(lens@, t) + j] == final(tmp_tiles_view[t])@[j]);
            }
            assert(tmp@.subrange(t * ts, t * ts + lens@[t]) =~= done);
        }
        // So every stretch that a segment reads is the tile's selection for the segment's byte.
        assert forall|b: int| 0 <= b < 256 implies reads_in_bounds(tmp@.len() as int, locals@, ts, b)
            && gathered(tmp@, locals@, ts, b, n as int) == select(src, lv, b) by {
            lemma_gathered_is_select(tmp@, locals@, tile_counts@, src, ts, lv, b, n as int);
            lemma_tiles_select(src, ts, lv, b, n as int);
            lemma_tile_bounds(len as int, ts, n as int);
            assert(src.subrange(0, len as int) =~= src);
        }
    }
    let chunks: Vec<&mut [T]> = split_by_counts(bucket, counts.as_slice());
    let ghost chunks_view = chunks@;
    let tmp_ref: &[T] = tmp.as_slice();
    let locals_ref: &[([usize; 256], [usize; 256])] = locals.as_slice();
    let gather_one = |index: usize, chunk: &mut [T]|
        requires
            index < 256,
            reads_in_bounds(tmp_ref@.len() as int, locals_ref@, tile_size as int, index as int),
            old(chunk)@.len() == gathered(
                tmp_ref@,
                locals_ref@,
                tile_size as int,
                index as int,
                locals_ref@.len() as int,
            ).len(),
        ensures
            final(chunk)@ == gathered(
                tmp_ref@,
                locals_ref@,
                tile_size as int,
                index as int,
                locals_ref@.len() as int,
            ),
        { gather_segment(index, chunk, tmp_ref, locals_ref, tile_size) };
    proof {
        assert forall|i: int| 0 <= i < chunks@.len() implies call_requires(
            gather_one,
            (i as usize, #[trigger] chunks@[i]),
        ) by {
            lemma_segment_bounds(counts@, i);
            assert(counts@[i] == count(src, lv, i));
        }
    }
    par_for_each_indexed(chunks, gather_one);
    proof {
        assert forall|b: int, j: int| 0 <= b < 256 && 0 <= j < count(src, lv, b) implies bucket@[offset(
            counts@,
            b,
        ) + j] == #[trigger] select(src, lv, b)[j] by {
            assert(call_ensures(gather_one, (b as usize, chunks_view[b]), ()));
            assert(counts@[b] == count(src, lv, b));
            lemma_segment_bounds(counts@, b);
            assert(bucket@[offset(counts@, b) + j] == final(chunks_view[b])@[j]);
        }
        lemma_segments_are_grouped(bucket@, src, lv, counts@, 256);
        assert(bucket@.subrange(0, len as int) =~= bucket@);
    }
}

/// What a segment gathers from the sorted tiles is, tile by tile, the tile's
/// selection for the segment's byte.
pub proof fn lemma_gathered_is_select<T: RadixKey>(
    tmp: Seq<T>,
    locals: Seq<([usize; 256], [usize; 256])>,
    tile_counts: Seq<[usize; 256]>,
    src: Seq<T>,
    tile_size: int,
    level: int,
    b: int,
    n: int,
)
    requires
        0 < tile_size,
        0 <= b < 256,
        tmp.len() == src.len(),
        are_tile_histograms(tile_counts, src, tile_size, level),
        locals.len() == tile_counts.len(),
        0 <= n <= locals.len(),
        forall|t: int|
            0 <= t < locals.len() ==> #[trigger] tile_is_sorted(
                tmp,
                locals,
                tile_counts,
                src,
                tile_size,
                level,
                t,
            ),
    ensures
        reads_in_bounds(tmp.len() as int, locals, tile_size, b),
        gathered(tmp, locals, tile_size, b, n) == tiles_select(src, tile_size, level, b, n),
    decreases n,
{
    assert forall|t: int| 0 <= t < locals.len() implies t * tile_size + (#[trigger] locals[t]).1@[b]
        + locals[t].0@[b] <= tmp.len() && tmp.subrange(
        t * tile_size + locals[t].1@[b],
        t * tile_size + locals[t].1@[b] + locals[t].0@[b],
    ) == select(tile(src, tile_size, t), level, b) by {
        let piece = tile(src, tile_size, t);
        let c = locals[t].0@;
        assert(tile_is_sorted(tmp, locals, tile_counts, src, tile_size, level, t));
        lemma_tile_bounds(src.len() as int, tile_size, t);
        assert(is_histogram(tile_counts[t]@, piece, level));
        lemma_partition_segment(c, piece, level, b);
        assert(locals[t].1@[b] == offset(c, b));
        lemma_segment_bounds(c, b);
        let part = tmp.subrange(t * tile_size, t * tile_size + piece.len());
        assert(part.subrange(offset(c, b), offset(c, b + 1)) =~= tmp.subrange(
            t * tile_size + locals[t].1@[b],
            t * tile_size + locals[t].1@[b] + locals[t].0@[b],
        ));
    }
    if n > 0 {
        lemma_gathered_is_select(tmp, locals, tile_counts, src, tile_size, level, b, n - 1);
        assert(tile_is_sorted(tmp, locals, tile_counts, src, tile_size, level, n - 1));
    }
}

/// Sorts `bucket` from `level` on: partitions it by tile recombination, then
/// sorts the segments, in parallel, from the next level on.
///
/// `counts` is the histogram of the bucket at `level` and `tile_counts` holds
/// the histograms of its tiles of `tile_size` elements. A bucket of fewer
/// than two elements is left as it is.
pub fn recombinating_sort_adapter<T: RadixKey + Copy + Send + Sync, Tn: Tuner + Sync>(
    tuner: &Tn,
    bucket: &mut [T],
    counts: &[usize; 256],
    tile_counts: &[[usize; 256]],
    tile_size: usize,
    level: usize,
)
    requires
        level < T::LEVELS,
        tile_size > 0,
        is_histogram(counts@, old(bucket)@, level as int),
        are_tile_histograms(tile_counts@, old(bucket)@, tile_size as int, level as int),
    ensures
        final(bucket)@.len() == old(bucket)@.len(),
        final(bucket)@.to_multiset() == old(bucket)@.to_multiset(),
        sorted_from(final(bucket)@, level as int),
        old(bucket)@.len() < 2 ==> final(bucket)@ == old(bucket)@,
    decreases T::LEVELS - level, 1int,
{
    if bucket.len() <= 1 {
        return ;
    }
    proof {
        lemma_histogram_total(counts@, bucket@, level as int);
        lemma_stable_partition_permutes(bucket@, level as int);
        lemma_stable_partition_is_partitioned(counts@, bucket@, level as int);
    }
    recombinating_sort(bucket, counts, tile_counts, tile_size, level);
    sort_partitioned(tuner, bucket, counts, level, true);
}

} // verus!

//! Parallel scatter: every worker scans its own tile once and writes each
//! element straight to its place in a temporary buffer.
use vstd::prelude::*;
use vstd::slice::slice_subrange;
use crate::director::sort_partitioned;
use crate::model::{
    count, is_histogram, lemma_histogram_total, lemma_offset_monotone, lemma_segment_bounds,
    lemma_segments_are_grouped,
    lemma_select_take_step, lemma_stable_partition_permutes, offset, partitioned, select,
    stable_partition,
};
use crate::parallel::{par_for_each_indexed, split_by_counts};
use crate::radix_key::{sorted_from, RadixKey};
use crate::segments::lemma_stable_partition_is_partitioned;
use crate::tiles::{
    are_tile_histograms, column_sum, lemma_column_sum_is_select, lemma_tile_bounds,
    lemma_tile_histograms_total, lemma_tiles_select, tile, tile_count, tiles_select,
};
use crate::tuner::Tuner;
use crate::utils::get_tmp_bucket;

verus! {

/// `k` is the index of a destination: there is one for every byte value.
pub open spec fn is_slot(k: int) -> bool {
    0 <= k < 256
}

/// Column `b` of the tile histograms: for every tile, in tile order, how many
/// of its elements have the byte `b`. Inside segment `b` the running offsets of
/// the column are where the tiles write: a tile starts behind all that the
/// tiles before it bring.
pub fn tile_column(tile_counts: &[[usize; 256]], b: usize) -> (column: Vec<usize>)
    requires
        b < 256,
    ensures
        column@.len() == tile_counts@.len(),
        forall|t: int| 0 <= t < column@.len() ==> #[trigger] column@[t] == tile_counts@[t]@[b as int],
        forall|t: int|
            0 <= t <= column@.len() ==> #[trigger] offset(column@, t) == column_sum(
                tile_counts@,
                b as int,
                t,
            ),
{
    let n: usize = tile_counts.len();
    let mut column: Vec<usize> = Vec::new();
    let mut t: usize = 0;
    while t < n
        invariant
            t <= n,
            b < 256,
            n == tile_counts@.len(),
            column@.len() == t,
            forall|k: int| 0 <= k < t ==> #[trigger] column@[k] == tile_counts@[k]@[b as int],
        decreases n - t,
    {
        column.push(tile_counts[t][b]);
        t = t + 1;
    }
    proof {
        assert forall|k: int| 0 <= k <= column@.len() implies #[trigger] offset(column@, k) == column_sum(
            tile_counts@,
            b as int,
            k,
        ) by {
            lemma_offset_is_column_sum(column@, tile_counts@, b as int, k);
        }
    }
    column
}

/// The running offsets of a column are the column sums.
proof fn lemma_offset_is_column_sum(column: Seq<usize>, tile_counts: Seq<[usize; 256]>, b: int, k: int)
    requires
        0 <= k <= column.len(),
        column.len() == tile_counts.len(),
        forall|t: int| 0 <= t < column.len() ==> #[trigger] column[t] == tile_counts[t]@[b],
    ensures
        offset(column, k) == column_sum(tile_counts, b, k),
    decreases k,
{
    if k > 0 {
        lemma_offset_is_column_sum(column, tile_counts, b, k - 1);
        assert(column[k - 1] == tile_counts[k - 1]@[b]);
    }
}

/// A sequence that holds, one after the other, the selections of the tiles
/// for byte `b` is the selection of the first `n` tiles taken as one.
proof fn lemma_pieces_are_tiles_select<T: RadixKey>(
    x: Seq<T>,
    src: Seq<T>,
    tile_size: int,
    level: int,
    b: int,
    tile_counts: Seq<[usize; 256]>,
    n: int,
)
    requires
        0 < tile_size,
        0 <= b < 256,
        are_tile_histograms(tile_counts, src, tile_size, level),
        0 <= n <= tile_counts.len(),
        x.len() >= column_sum(tile_counts, b, n),
        forall|t: int, j: int|
            0 <= t < n && 0 <= j < count(tile(src, tile_size, t), level, b) ==> x[column_sum(
                tile_counts,
                b,
                t,
            ) + j] == #[trigger] select(tile(src, tile_size, t), level, b)[j],
    ensures
        x.subrange(0, column_sum(tile_counts, b, n)) == tiles_select(src, tile_size, level, b, n),
    decreases n,
{
    if n > 0 {
        crate::utils::lemma_column_sum_monotone(tile_counts, b, n - 1, n);
        crate::utils::lemma_column_sum_monotone(tile_counts, b, 0, n - 1);
        lemma_pieces_are_tiles_select(x, src, tile_size, level, b, tile_counts, n - 1);
        lemma_column_sum_is_select(tile_counts, src, tile_size, level, b, n - 1);
        lemma_column_sum_is_select(tile_counts, src, tile_size, level, b, n);
        let g = tiles_select(src, tile_size, level, b, n - 1);
        let sel = select(tile(src, tile_size, n - 1), level, b);
        let y = x.subrange(0, column_sum(tile_counts, b, n));
        assert(y.len() == (g + sel).len());
        assert forall|k: int| 0 <= k < y.len() implies y[k] == (g + sel)[k] by {
            if k < g.len() {
                assert(x.subrange(0, column_sum(tile_counts, b, n - 1))[k] == g[k]);
            } else {
                let j = k - g.len();
                assert(x[column_sum(tile_counts, b, n - 1) + j] == select(
                    tile(src, tile_size, n - 1),
                    level,
                    b,
                )[j]);
            }
        }
        assert(y =~= g + sel);
    } else {
        assert(x.subrange(0, 0) =~= Seq::<T>::empty());
    }
}

/// Hands the chunks of one row out to the destination lists: chunk `t` goes
/// to the end of list `t`.
fn distribute<'a, T>(row: Vec<&'a mut [T]>, dests: &mut Vec<Vec<&'a mut [T]>>)
    requires
        old(dests)@.len() == row@.len(),
    ensures
        final(dests)@.len() == old(dests)@.len(),
        forall|t: int|
            #![trigger final(dests)@[t]]
            0 <= t < row@.len() ==> final(dests)@[t]@.len() == old(dests)@[t]@.len() + 1,
        forall|t: int, i: int|
            #![trigger final(dests)@[t]@[i]]
            0 <= t < row@.len() && 0 <= i < old(dests)@[t]@.len() ==> final(dests)@[t]@[i]@ == old(dests)@[t]@[i]@ && final(final(dests)@[t]@[i])@ == final(old(dests)@[t]@[i])@,
        forall|t: int|
            #![trigger final(dests)@[t]]
            0 <= t < row@.len() ==> final(dests)@[t]@.last()@ == row@[t]@ && final(final(dests)@[t]@.last())@ == final(row@[t])@,
{
    let ghost all = row@;
    let mut row = row;
    let mut t: usize = row.len();
    while t > 0
        invariant
            t == row@.len(),
            t <= all.len(),
            dests@.len() == all.len(),
            dests@.len() == old(dests)@.len(),
            forall|k: int| 0 <= k < t ==> row@[k] == all[k],
            forall|k: int| 0 <= k < t ==> #[trigger] dests@[k] == old(dests)@[k],
            forall|k: int|
                #![trigger dests@[k]]
                t <= k < all.len() ==> dests@[k]@.len() == old(dests)@[k]@.len() + 1,
            forall|k: int, i: int|
                #![trigger dests@[k]@[i]]
                t <= k < all.len() && 0 <= i < old(dests)@[k]@.len() ==> dests@[k]@[i]@ == old(dests)@[k]@[i]@ && final(dests@[k]@[i])@ == final(old(dests)@[k]@[i])@,
            forall|k: int|
                #![trigger dests@[k]]
                t <= k < all.len() ==> dests@[k]@.last()@ == all[k]@ && final(dests@[k]@.last())@
                    == final(all[k])@,
        decreases t,
    {
        t = t - 1;
        let ghost before = dests@;
        let chunk: &'a mut [T] = row.pop().unwrap();
        dests[t].push(chunk);
        proof {
            assert(dests@.len() == before.len());
            assert(dests@[t as int]@.len() == before[t as int]@.len() + 1);
            assert(forall|j: int|
                0 <= j < before[t as int]@.len() ==> dests@[t as int]@[j] == before[t as int]@[j]);
            assert(forall|k: int| 0 <= k < before.len() && k != t ==> dests@[k] == before[k]);
            assert(dests@[t as int]@.last()@ == all[t as int]@);
            assert(final(dests@[t as int]@.last())@ == final(all[t as int])@);
        }
    }
}

/// Scatters tile `t` of `src`: every element goes, in the order of the tile,
/// to the next free slot of the destination for its byte. The destination for
/// byte `b` is entry `255 - b` of `dests`, and is as long as the tile has
/// elements with that byte.
pub fn scatter_tile<T: RadixKey + Copy>(
    src: &[T],
    t: usize,
    tile_size: usize,
    dests: Vec<&mut [T]>,
    level: usize,
)
    requires
        level < T::LEVELS,
        tile_size > 0,
        t < tile_count(src@.len() as int, tile_size as int),
        dests@.len() == 256,
        forall|k: int|
            #![trigger dests@[k]]
            0 <= k < 256 ==> dests@[k]@.len() == count(
                tile(src@, tile_size as int, t as int),
                level as int,
                255 - k,
            ),
    ensures
        forall|k: int|
            #[trigger] is_slot(k) ==> final(dests@[k])@ == select(
                tile(src@, tile_size as int, t as int),
                level as int,
                255 - k,
            ),
{
    let len: usize = src.len();
    proof {
        lemma_tile_bounds(len as int, tile_size as int, t as int);
    }
    let start: usize = t * tile_size;
    let end: usize = if len - start <= tile_size {
        len
    } else {
        start + tile_size
    };
    let chunk: &[T] = slice_subrange(src, start, end);
    let ghost given = dests@;
    let ghost lv = level as int;
    let mut dests = dests;
    let mut cursors: [usize; 256] = [0usize; 256];
    let mut i: usize = 0;
    proof {
        assert(chunk@ == tile(src@, tile_size as int, t as int));
        assert(chunk@.take(0) =~= Seq::<T>::empty());
    }
    while i < chunk.len()
        invariant
            i <= chunk@.len(),
            level < T::LEVELS,
            lv == level as int,
            dests@.len() == 256,
            given.len() == 256,
            forall|k: int|
                #![trigger dests@[k]]
                0 <= k < 256 ==> dests@[k]@.len() == count(chunk@, lv, 255 - k) && final(dests@[k])@
                    == final(given[k])@,
            forall|b: int| 0 <= b < 256 ==> #[trigger] cursors@[b] == count(chunk@.take(i as int), lv, b),
            forall|b: int, j: int|
                0 <= b < 256 && 0 <= j < count(chunk@.take(i as int), lv, b) ==> dests@[255 - b]@[j]
                    == #[trigger] select(chunk@.take(i as int), lv, b)[j],
        decreases chunk.len() - i,
    {
        let e: T = chunk[i];
        let b: usize = e.get_level(level) as usize;
        let k: usize = 255 - b;
        let c: usize = cursors[b];
        let ghost before = dests@;
        proof {
            lemma_select_take_step(chunk@, i as int, lv, b as int);
            assert(before[k as int]@.len() == count(chunk@, lv, 255 - k));
        }
        dests[k][c] = e;
        cursors[b] = c + 1;
        proof {
            assert(dests@.len() == 256);
            assert(forall|m: int| 0 <= m < 256 && m != k ==> dests@[m] == before[m]);
            assert(dests@[k as int]@ == before[k as int]@.update(c as int, e));
            assert(final(dests@[k as int])@ == final(before[k as int])@);
            assert forall|m: int| #![trigger dests@[m]] 0 <= m < 256 implies dests@[m]@.len() == count(
                chunk@,
                lv,
                255 - m,
            ) && final(dests@[m])@ == final(given[m])@ by {
                assert(before[m]@.len() == count(chunk@, lv, 255 - m));
            }
            assert forall|x: int| 0 <= x < 256 implies #[trigger] cursors@[x] == count(
                chunk@.take(i + 1),
                lv,
                x,
            ) by {
                lemma_select_take_step(chunk@, i as int, lv, x);
            }
            assert forall|x: int, j: int|
                0 <= x < 256 && 0 <= j < count(chunk@.take(i + 1), lv, x) implies dests@[255 - x]@[j]
                == #[trigger] select(chunk@.take(i + 1), lv, x)[j] by {
                lemma_select_take_step(chunk@, i as int, lv, x);
                let prev = select(chunk@.take(i as int), lv, x);
                if x == b && j == prev.len() {
                } else {
                    assert(before[255 - x]@[j] == prev[j]);
                }
            }
        }
        i = i + 1;
    }
    proof {
        assert(chunk@.take(i as int) =~= chunk@);
        assert forall|k: int| #[trigger] is_slot(k) implies final(given[k])@ == select(
            chunk@,
            lv,
            255 - k,
        ) by {
            assert(has_resolved(dests@[k]));
            assert(dests@[k]@.len() == count(chunk@, lv, 255 - k));
            assert forall|j: int| 0 <= j < count(chunk@, lv, 255 - k) implies dests@[k]@[j] == select(
                chunk@,
                lv,
                255 - k,
            )[j] by {
                assert(dests@[255 - (255 - k)]@[j] == select(chunk@.take(i as int), lv, 255 - k)[j]);
            }
            assert(dests@[k]@ =~= select(chunk@, lv, 255 - k));
        }
    }
}

/// Partitions `bucket` by the key byte at `level`: 256 segments in ascending
/// byte order, each in the order that its elements had before.
///
/// `tile_counts` holds the histogram of every tile of `tile_size` elements,
/// `counts` the histogram of the whole bucket. Every (tile, byte) pair owns a
/// stretch of a temporary buffer of the size of the bucket: inside the segment
/// of the byte, behind the stretches of the tiles before. All tiles are
/// scattered in parallel, each into its own stretches; then the buffer is
/// copied back.
pub fn scanning_sort<T: RadixKey + Copy + Send + Sync>(
    bucket: &mut [T],
    counts: &[usize; 256],
    tile_counts: &[[usize; 256]],
    tile_size: usize,
    level: usize,
)
    requires
        level < T::LEVELS,
        tile_size > 0,
        is_histogram(counts@, old(bucket)@, level as int),
        are_tile_histograms(tile_counts@, old(bucket)@, tile_size as int, level as int),
    ensures
        final(bucket)@ == stable_partition(old(bucket)@, level as int),
        final(bucket)@.to_multiset() == old(bucket)@.to_multiset(),
        partitioned(final(bucket)@, level as int, counts@),
{
    let len: usize = bucket.len();
    let ghost src = bucket@;
    let ghost ts = tile_size as int;
    let ghost lv = level as int;
    proof {
        lemma_histogram_total(counts@, src, lv);
        lemma_stable_partition_permutes(src, lv);
        lemma_stable_partition_is_partitioned(counts@, src, lv);
    }
    if len == 0 {
        proof {
            assert(stable_partition(src, lv) =~= src);
        }
        return ;
    }
    let n: usize = tile_counts.len();
    proof {
        lemma_tile_bounds(len as int, ts, 0);
    }
    let mut tmp: Vec<T> = get_tmp_bucket(bucket);
    let source: &[T] = bucket;
    let mut segs: Vec<&mut [T]> = split_by_counts(tmp.as_mut_slice(), counts.as_slice());
    let ghost segs0 = segs@;
    proof {
        assert forall|i: int| #![trigger segs0[i]] 0 <= i < 256 implies segs0[i]@.len() == counts@[i] by {
            lemma_segment_bounds(counts@, i);
        }
    }
    let mut dests: Vec<Vec<&mut [T]>> = Vec::new();
    let mut t: usize = 0;
    while t < n
        invariant
            t <= n,
            dests@.len() == t,
            forall|k: int| 0 <= k < t ==> (#[trigger] dests@[k])@.len() == 0,
            segs0.len() == 256,
            segs@ == segs0,
            forall|i: int| #![trigger segs0[i]] 0 <= i < 256 ==> segs0[i]@.len() == counts@[i],
        decreases n - t,
    {
        dests.push(Vec::new());
        t = t + 1;
    }
    // `rows[i][t]` is the stretch of tile `t` for byte `255 - i`.
    let ghost mut rows: Seq<Seq<&mut [T]>> = Seq::empty();
    let mut b: usize = 256;
    while b > 0
        invariant
            b <= 256,
            n >= 1,
            n == tile_counts@.len(),
            level < T::LEVELS,
            tile_size > 0,
            ts == tile_size as int,
            lv == level as int,
            is_histogram(counts@, src, lv),
            are_tile_histograms(tile_counts@, src, ts, lv),
            segs0.len() == 256,
            forall|i: int|
                #![trigger segs0[i]]
                0 <= i < 256 ==> segs0[i]@.len() == counts@[i],
            segs@.len() == b,
            forall|i: int| 0 <= i < b ==> segs@[i] == segs0[i],
            forall|c: int| #![trigger segs0[c]] b <= c < 256 ==> final(segs0[c])@.len() == counts@[c],
            dests@.len() == n,
            rows.len() == 256 - b,
            forall|k: int| #![trigger dests@[k]] 0 <= k < n ==> dests@[k]@.len() == 256 - b,
            forall|i: int| #![trigger rows[i]] 0 <= i < 256 - b ==> rows[i].len() == n,
            forall|k: int, i: int|
                #![trigger dests@[k]@[i]]
                0 <= k < n && 0 <= i < 256 - b ==> dests@[k]@[i]@.len() == tile_counts@[k]@[255 - i]
                    && final(dests@[k]@[i])@ == final(rows[i][k])@,
            forall|i: int, k: int, j: int|
                #![trigger final(rows[i][k])@[j]]
                0 <= i < 256 - b && 0 <= k < n && 0 <= j < tile_counts@[k]@[255 - i] ==> final(segs0[255 - i])@[column_sum(tile_counts@, 255 - i, k) + j] == final(rows[i][k])@[j],
        decreases b,
    {
        b = b - 1;
        let ghost segs_before = segs@;
        let seg: &mut [T] = segs.pop().unwrap();
        let column: Vec<usize> = tile_column(tile_counts, b);
        proof {
            lemma_tile_histograms_total(tile_counts@, src, ts, lv, b as int);
            assert(segs_before[b as int] == segs0[b as int]);
            assert(segs0[b as int]@.len() == counts@[b as int]);
            assert(seg@ == segs_before[b as int]@);
            assert(seg@.len() == counts@[b as int]);
            assert(counts@[b as int] == count(src, lv, b as int));
        }
        let row: Vec<&mut [T]> = split_by_counts(seg, column.as_slice());
        let ghost row_view = row@;
        proof {
            assert forall|k: int| #![trigger row_view[k]] 0 <= k < n implies row_view[k]@.len() == column@[k] by {
                lemma_offset_monotone(column@, k + 1, n as int);
                lemma_offset_monotone(column@, 0, k);
            }
        }
        let ghost old_rows = rows;
        let ghost old_dests = dests@;
        proof {
            rows = rows.push(row_view);
        }
        distribute(row, &mut dests);
        proof {
            let i0 = 255 - b;
            assert forall|k: int, i: int|
                #![trigger dests@[k]@[i]]
                0 <= k < n && 0 <= i < 256 - b implies dests@[k]@[i]@.len() == tile_counts@[k]@[255 - i]
                && final(dests@[k]@[i])@ == final(rows[i][k])@ by {
                if i < i0 {
                    assert(old_dests[k]@[i]@.len() == tile_counts@[k]@[255 - i]);
                    assert(rows[i] == old_rows[i]);
                } else {
                    assert(dests@[k]@.last() == dests@[k]@[i]);
                    lemma_column_step(tile_counts@, column@, b as int, k);
                    assert(row_view[k]@.len() == column@[k]);
                }
            }
            assert forall|i: int, k: int, j: int|
                #![trigger final(rows[i][k])@[j]]
                0 <= i < 256 - b && 0 <= k < n && 0 <= j < tile_counts@[k]@[255 - i] implies final(segs0[255 - i])@[column_sum(tile_counts@, 255 - i, k) + j] == final(rows[i][k])@[j] by {
                if i < i0 {
                    assert(rows[i] == old_rows[i]);
                    assert(final(segs0[255 - i])@[column_sum(tile_counts@, 255 - i, k) + j] == final(old_rows[i][k])@[j]);
                } else {
                    assert(column@[k] == tile_counts@[k]@[b as int]);
                    assert(final(segs0[b as int])@[offset(column@, k) + j] == final(row_view[k])@[j]);
                }
            }
        }
    }
    let ghost dests_view = dests@;
    let scatter_one = |t: usize, list: Vec<&mut [T]>|
        requires
            t < tile_count(source@.len() as int, tile_size as int),
            list@.len() == 256,
            forall|k: int|
                #![trigger list@[k]]
                0 <= k < 256 ==> list@[k]@.len() == count(
                    tile(source@, tile_size as int, t as int),
                    level as int,
                    255 - k,
                ),
        ensures
            forall|k: int|
                #[trigger] is_slot(k) ==> final(list@[k])@ == select(
                    tile(source@, tile_size as int, t as int),
                    level as int,
                    255 - k,
                ),
        { scatter_tile(source, t, tile_size, list, level) };
    proof {
        assert forall|i: int| 0 <= i < dests@.len() implies call_requires(
            scatter_one,
            (i as usize, #[trigger] dests@[i]),
        ) by {
            assert forall|k: int| #![trigger dests@[i]@[k]] 0 <= k < 256 implies dests@[i]@[k]@.len() == count(
                tile(src, ts, i),
                lv,
                255 - k,
            ) by {
                assert(dests@[i]@[k]@.len() == tile_counts@[i]@[255 - k]);
                assert(is_histogram(tile_counts@[i]@, tile(src, ts, i), lv));
            }
        }
    }
    par_for_each_indexed(dests, scatter_one);
    proof {
        assert forall|c: int, j: int| 0 <= c < 256 && 0 <= j < count(src, lv, c) implies tmp@[offset(
            counts@,
            c,
        ) + j] == #[trigger] select(src, lv, c)[j] by {
            let i = 255 - c;
            let x = final(segs0[c])@;
            lemma_segment_bounds(counts@, c);
            assert(counts@[c] == count(src, lv, c));
            assert(tmp@[offset(counts@, c) + j] == final(segs0[c])@[j]);
            lemma_tile_histograms_total(tile_counts@, src, ts, lv, c);
            assert forall|k: int, m: int|
                0 <= k < n && 0 <= m < count(tile(src, ts, k), lv, c) implies x[column_sum(
                tile_counts@,
                c,
                k,
            ) + m] == #[trigger] select(tile(src, ts, k), lv, c)[m] by {
                assert(is_histogram(tile_counts@[k]@, tile(src, ts, k), lv));
                assert(tile_counts@[k]@[c] == count(tile(src, ts, k), lv, c));
                assert(call_ensures(scatter_one, (k as usize, dests_view[k]), ()));
                assert(is_slot(i));
                assert(final(dests_view[k]@[i])@ == select(tile(src, ts, k), lv, 255 - i));
                assert(final(dests_view[k]@[i])@ == final(rows[i][k])@);
                assert(final(segs0[255 - i])@[column_sum(tile_counts@, 255 - i, k) + m] == final(rows[i][k])@[m]);
            }
            assert(x.len() == counts@[c]) by {
                assert(segs0[c]@.len() == counts@[c]);
            }
            lemma_pieces_are_tiles_select(x, src, ts, lv, c, tile_counts@, n as int);
            lemma_tiles_select(src, ts, lv, c, n as int);
            lemma_tile_bounds(len as int, ts, n as int);
            assert(src.subrange(0, len as int) =~= src);
            assert(x.subrange(0, x.len() as int) =~= x);
        }
        lemma_segments_are_grouped(tmp@, src, lv, counts@, 256);
        assert(tmp@.subrange(0, len as int) =~= tmp@);
    }
    bucket.copy_from_slice(tmp.as_slice());
}

/// One step of a column's running offsets is the entry of the column.
proof fn lemma_column_step(tile_counts: Seq<[usize; 256]>, column: Seq<usize>, b: int, k: int)
    requires
        0 <= k < column.len(),
        forall|t: int| 0 <= t <= column.len() ==> #[trigger] offset(column, t) == column_sum(tile_counts, b, t),
        forall|t: int| 0 <= t < column.len() ==> #[trigger] column[t] == tile_counts[t]@[b],
    ensures
        offset(column, k + 1) - offset(column, k) == column[k],
        column[k] == tile_counts[k]@[b],
{
    assert(offset(column, k + 1) == offset(column, k) + column[k]);
}

/// Sorts `bucket` from `level` on: partitions it by parallel scatter, then
/// sorts the segments, in parallel, from the next level on.
///
/// `counts` is the histogram of the bucket at `level` and `tile_counts` holds
/// the histograms of its tiles of `tile_size` elements. A bucket of fewer
/// than two elements is left as it is.
pub fn scanning_sort_adapter<T: RadixKey + Copy + Send + Sync, Tn: Tuner + Sync>(
    tuner: &Tn,
    bucket: &mut [T],
    counts: &[usize; 256],
    tile_counts: &[[usize; 256]],
    tile_size: usize,
    level: usize,
)
    requires
        level < T::LEVELS,
        tile_size > 0,
        is_histogram(counts@, old(bucket)@, level as int),
        are_tile_histograms(tile_counts@, old(bucket)@, tile_size as int, level as int),
    ensures
        final(bucket)@.len() == old(bucket)@.len(),
        final(bucket)@.to_multiset() == old(bucket)@.to_multiset(),
        sorted_from(final(bucket)@, level as int),
        old(bucket)@.len() < 2 ==> final(bucket)@ == old(bucket)@,
    decreases T::LEVELS - level, 1int,
{
    if bucket.len() <= 1 {
        return ;
    }
    proof {
        lemma_histogram_total(counts@, bucket@, level as int);
        lemma_stable_partition_permutes(bucket@, level as int);
        lemma_stable_partition_is_partitioned(counts@, bucket@, level as int);
    }
    scanning_sort(bucket, counts, tile_counts, tile_size, level);
    sort_partitioned(tuner, bucket, counts, level, true);
}

} // verus!

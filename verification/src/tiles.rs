//! Tiles: the consecutive pieces of a bucket that the workers share out.
use vstd::prelude::*;
use vstd::slice::slice_subrange;
use crate::model::{count, lemma_select_add, offset, select};
use crate::radix_key::RadixKey;

verus! {

/// How many tiles of `tile_size` elements cover `len` elements: the length
/// divided by the tile size, rounded up.
pub open spec fn tile_count(len: int, tile_size: int) -> int {
    (len + tile_size - 1) / tile_size
}

/// The index at which tile `t` starts; from the tile count on, the length.
pub open spec fn tile_start(len: int, tile_size: int, t: int) -> int {
    if t * tile_size <= len {
        t * tile_size
    } else {
        len
    }
}

/// Tile `t` of `s`: `tile_size` elements from `t * tile_size` on; the last
/// tile takes what is left.
pub open spec fn tile<T>(s: Seq<T>, tile_size: int, t: int) -> Seq<T> {
    s.subrange(tile_start(s.len() as int, tile_size, t), tile_start(s.len() as int, tile_size, t + 1))
}

/// The selections for byte `b` of the first `n` tiles, one after the other.
pub open spec fn tiles_select<T: RadixKey>(s: Seq<T>, tile_size: int, level: int, b: int, n: int) -> Seq<T>
    decreases n,
{
    if n <= 0 {
        Seq::empty()
    } else {
        tiles_select(s, tile_size, level, b, n - 1) + select(tile(s, tile_size, n - 1), level, b)
    }
}

/// The sum of entry `b` over the first `n` histograms of `tile_counts`.
pub open spec fn column_sum(tile_counts: Seq<[usize; 256]>, b: int, n: int) -> int
    decreases n,
{
    if n <= 0 {
        0
    } else {
        column_sum(tile_counts, b, n - 1) + tile_counts[n - 1]@[b]
    }
}

/// `tile_counts` holds, in tile order, the histogram of every tile of `s`.
pub open spec fn are_tile_histograms<T: RadixKey>(
    tile_counts: Seq<[usize; 256]>,
    s: Seq<T>,
    tile_size: int,
    level: int,
) -> bool {
    &&& tile_counts.len() == tile_count(s.len() as int, tile_size)
    &&& forall|t: int|
        0 <= t < tile_counts.len() ==> crate::model::is_histogram(
            (#[trigger] tile_counts[t])@,
            tile(s, tile_size, t),
            level,
        )
}

/// Where the tiles start and end.
pub proof fn lemma_tile_bounds(len: int, tile_size: int, t: int)
    requires
        0 <= len,
        0 < tile_size,
        0 <= t,
    ensures
        0 <= tile_start(len, tile_size, t) <= tile_start(len, tile_size, t + 1) <= len,
        tile_start(len, tile_size, t + 1) - tile_start(len, tile_size, t) <= tile_size,
        t < tile_count(len, tile_size) <==> t * tile_size < len,
        t < tile_count(len, tile_size) ==> tile_start(len, tile_size, t) == t * tile_size
            && tile_start(len, tile_size, t) < tile_start(len, tile_size, t + 1),
        t >= tile_count(len, tile_size) ==> tile_start(len, tile_size, t) == len,
        0 <= tile_count(len, tile_size) <= len,
        tile_start(len, tile_size, 0) == 0,
        (t + 1) * tile_size == t * tile_size + tile_size,
{
    let n = tile_count(len, tile_size);
    assert((t + 1) * tile_size == t * tile_size + tile_size) by (nonlinear_arith);
    assert(t * tile_size >= 0) by (nonlinear_arith)
        requires
            t >= 0,
            tile_size > 0,
    ;
    assert(n * tile_size >= len && (n - 1) * tile_size < len && n >= 0 && n <= len) by (nonlinear_arith)
        requires
            n == (len + tile_size - 1) / tile_size,
            tile_size > 0,
            len >= 0,
    ;
    if t < n {
        assert(t * tile_size <= (n - 1) * tile_size) by (nonlinear_arith)
            requires
                t <= n - 1,
                tile_size > 0,
        ;
    } else {
        assert(t * tile_size >= n * tile_size) by (nonlinear_arith)
            requires
                t >= n,
                tile_size > 0,
        ;
    }
    assert(0 * tile_size == 0);
}

/// The tiles before `n`, put together, are the front of `s`, and so are their
/// selections.
pub proof fn lemma_tiles_select<T: RadixKey>(s: Seq<T>, tile_size: int, level: int, b: int, n: int)
    requires
        0 < tile_size,
        0 <= n,
    ensures
        tiles_select(s, tile_size, level, b, n) == select(
            s.subrange(0, tile_start(s.len() as int, tile_size, n)),
            level,
            b,
        ),
    decreases n,
{
    let len = s.len() as int;
    if n > 0 {
        lemma_tiles_select(s, tile_size, level, b, n - 1);
        lemma_tile_bounds(len, tile_size, n - 1);
        let front = s.subrange(0, tile_start(len, tile_size, n - 1));
        assert(s.subrange(0, tile_start(len, tile_size, n)) =~= front + tile(s, tile_size, n - 1));
        lemma_select_add(front, tile(s, tile_size, n - 1), level, b);
    } else {
        lemma_tile_bounds(len, tile_size, 0);
        assert(s.subrange(0, 0) =~= Seq::<T>::empty());
    }
}

/// The histograms of the tiles add up to the histogram of the whole: for
/// every byte, the tiles' counts sum to the count in `s`.
pub proof fn lemma_tile_histograms_total<T: RadixKey>(
    tile_counts: Seq<[usize; 256]>,
    s: Seq<T>,
    tile_size: int,
    level: int,
    b: int,
)
    requires
        0 < tile_size,
        0 <= b < 256,
        are_tile_histograms(tile_counts, s, tile_size, level),
    ensures
        column_sum(tile_counts, b, tile_counts.len() as int) == count(s, level, b),
{
    let n = tile_counts.len() as int;
    lemma_column_sum_is_select(tile_counts, s, tile_size, level, b, n);
    lemma_tiles_select(s, tile_size, level, b, n);
    lemma_tile_bounds(s.len() as int, tile_size, n);
    assert(s.subrange(0, s.len() as int) =~= s);
}

/// The column sum over the first `n` tiles is the length of their selections.
pub proof fn lemma_column_sum_is_select<T: RadixKey>(
    tile_counts: Seq<[usize; 256]>,
    s: Seq<T>,
    tile_size: int,
    level: int,
    b: int,
    n: int,
)
    requires
        0 < tile_size,
        0 <= b < 256,
        are_tile_histograms(tile_counts, s, tile_size, level),
        0 <= n <= tile_counts.len(),
    ensures
        column_sum(tile_counts, b, n) == tiles_select(s, tile_size, level, b, n).len(),
    decreases n,
{
    if n > 0 {
        lemma_column_sum_is_select(tile_counts, s, tile_size, level, b, n - 1);
        assert(crate::model::is_histogram(tile_counts[n - 1]@, tile(s, tile_size, n - 1), level));
        assert(tile_counts[n - 1]@[b] == count(tile(s, tile_size, n - 1), level, b));
    }
}

/// The lengths of the tiles that cover `len` elements, in tile order.
pub fn tile_lengths(len: usize, tile_size: usize) -> (lens: Vec<usize>)
    requires
        tile_size > 0,
    ensures
        lens@.len() == tile_count(len as int, tile_size as int),
        forall|k: int|
            0 <= k <= lens@.len() ==> #[trigger] offset(lens@, k) == tile_start(
                len as int,
                tile_size as int,
                k,
            ),
        forall|t: int|
            0 <= t < lens@.len() ==> #[trigger] lens@[t] == tile_start(len as int, tile_size as int, t + 1)
                - tile_start(len as int, tile_size as int, t),
{
    let mut lens: Vec<usize> = Vec::new();
    let mut start: usize = 0;
    proof {
        lemma_tile_bounds(len as int, tile_size as int, 0);
    }
    while start < len
        invariant
            tile_size > 0,
            start <= len,
            start == tile_start(len as int, tile_size as int, lens@.len() as int),
            start < len ==> lens@.len() < tile_count(len as int, tile_size as int),
            start == len ==> lens@.len() == tile_count(len as int, tile_size as int),
            forall|k: int|
                0 <= k <= lens@.len() ==> #[trigger] offset(lens@, k) == tile_start(
                    len as int,
                    tile_size as int,
                    k,
                ),
            forall|t: int|
                0 <= t < lens@.len() ==> #[trigger] lens@[t] == tile_start(
                    len as int,
                    tile_size as int,
                    t + 1,
                ) - tile_start(len as int, tile_size as int, t),
        decreases len - start,
    {
        let ghost k = lens@.len() as int;
        let ghost before = lens@;
        proof {
            lemma_tile_bounds(len as int, tile_size as int, k);
            lemma_tile_bounds(len as int, tile_size as int, k + 1);
        }
        let next: usize = if len - start <= tile_size {
            len
        } else {
            start + tile_size
        };
        lens.push(next - start);
        proof {
            assert(next == tile_start(len as int, tile_size as int, k + 1));
            assert forall|j: int| 0 <= j <= lens@.len() implies #[trigger] offset(lens@, j)
                == tile_start(len as int, tile_size as int, j) by {
                lemma_offset_push(before, (next - start) as usize, j);
            }
        }
        start = next;
    }
    proof {
        if len == 0 {
            assert(tile_count(0, tile_size as int) == 0) by (nonlinear_arith)
                requires
                    tile_size > 0,
            ;
        }
    }
    lens
}

/// Appending an entry leaves the running offsets before it as they are and
/// adds the entry to the one behind it.
pub proof fn lemma_offset_push(counts: Seq<usize>, c: usize, k: int)
    requires
        0 <= k <= counts.len() + 1,
    ensures
        offset(counts.push(c), k) == if k <= counts.len() {
            offset(counts, k)
        } else {
            offset(counts, k - 1) + c
        },
    decreases k,
{
    if k > 0 {
        lemma_offset_push(counts, c, k - 1);
        if k <= counts.len() {
            assert(counts.push(c)[k - 1] == counts[k - 1]);
        } else {
            assert(counts.push(c)[k - 1] == c);
        }
    }
}

/// Cuts `bucket` into its tiles.
pub fn split_tiles<T>(bucket: &[T], tile_size: usize) -> (tiles: Vec<&[T]>)
    requires
        tile_size > 0,
    ensures
        tiles@.len() == tile_count(bucket@.len() as int, tile_size as int),
        forall|t: int| 0 <= t < tiles@.len() ==> (#[trigger] tiles@[t])@ == tile(bucket@, tile_size as int, t),
{
    let len: usize = bucket.len();
    let mut tiles: Vec<&[T]> = Vec::new();
    let mut start: usize = 0;
    proof {
        lemma_tile_bounds(len as int, tile_size as int, 0);
    }
    while start < len
        invariant
            tile_size > 0,
            len == bucket@.len(),
            start <= len,
            start == tile_start(len as int, tile_size as int, tiles@.len() as int),
            start < len ==> tiles@.len() < tile_count(len as int, tile_size as int),
            start == len ==> tiles@.len() == tile_count(len as int, tile_size as int),
            forall|t: int|
                0 <= t < tiles@.len() ==> (#[trigger] tiles@[t])@ == tile(bucket@, tile_size as int, t),
        decreases len - start,
    {
        let ghost k = tiles@.len() as int;
        proof {
            lemma_tile_bounds(len as int, tile_size as int, k);
            lemma_tile_bounds(len as int, tile_size as int, k + 1);
        }
        let next: usize = if len - start <= tile_size {
            len
        } else {
            start + tile_size
        };
        tiles.push(slice_subrange(bucket, start, next));
        start = next;
    }
    proof {
        if len == 0 {
            assert(tile_count(0, tile_size as int) == 0) by (nonlinear_arith)
                requires
                    tile_size > 0,
            ;
        }
    }
    tiles
}

} // verus!

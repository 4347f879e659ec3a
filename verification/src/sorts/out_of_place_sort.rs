//! One stable counting-sort pass from a source into a destination of the same size.
use vstd::prelude::*;
use crate::model::{
    count, is_histogram, lemma_histogram_total, lemma_offset_monotone, lemma_segment_bounds,
    lemma_segments_are_grouped,
    lemma_select_take_step, lemma_stable_partition_permutes, offset, partitioned, select,
    stable_partition,
};
use crate::radix_key::RadixKey;
use crate::segments::lemma_stable_partition_is_partitioned;
use crate::utils::get_prefix_sums;

verus! {

/// Writes the elements of `src` into `dst`, grouped by their key byte at `level`
/// in ascending order; elements with the same byte keep the order they have in
/// `src`. `counts` is the histogram of `src` at `level`.
pub fn out_of_place_sort<T: RadixKey + Copy>(
    src: &[T],
    dst: &mut [T],
    counts: &[usize; 256],
    level: usize,
)
    requires
        level < T::LEVELS,
        old(dst)@.len() == src@.len(),
        is_histogram(counts@, src@, level as int),
    ensures
        final(dst)@ == stable_partition(src@, level as int),
        final(dst)@.to_multiset() == src@.to_multiset(),
        partitioned(final(dst)@, level as int, counts@),
{
    let n: usize = src.len();
    proof {
        lemma_histogram_total(counts@, src@, level as int);
        lemma_stable_partition_permutes(src@, level as int);
        lemma_stable_partition_is_partitioned(counts@, src@, level as int);
    }
    let mut cursors: [usize; 256] = get_prefix_sums(counts);
    let mut i: usize = 0;
    proof {
        assert(src@.take(0) =~= Seq::<T>::empty());
    }
    while i < n
        invariant
            n == src@.len(),
            i <= n,
            level < T::LEVELS,
            dst@.len() == src@.len(),
            is_histogram(counts@, src@, level as int),
            offset(counts@, 256) == src@.len(),
            forall|b: int|
                0 <= b < 256 ==> #[trigger] cursors@[b] == offset(counts@, b) + count(
                    src@.take(i as int),
                    level as int,
                    b,
                ),
            forall|b: int, j: int|
                0 <= b < 256 && 0 <= j < count(src@.take(i as int), level as int, b) ==> dst@[offset(
                    counts@,
                    b,
                ) + j] == #[trigger] select(src@.take(i as int), level as int, b)[j],
        decreases n - i,
    {
        let e: T = src[i];
        let byte: u8 = e.get_level(level);
        let d: usize = byte as usize;
        let p: usize = cursors[d];
        let ghost before = dst@;
        let ghost lv = level as int;
        proof {
            lemma_select_take_step(src@, i as int, lv, d as int);
            assert(counts@[d as int] == count(src@, lv, d as int));
            lemma_segment_bounds(counts@, d as int);
            assert(p == offset(counts@, d as int) + count(src@.take(i as int), lv, d as int));
            assert(p < offset(counts@, d + 1));
        }
        dst[p] = e;
        cursors[d] = p + 1;
        proof {
            assert forall|b: int| 0 <= b < 256 implies #[trigger] cursors@[b] == offset(counts@, b)
                + count(src@.take(i + 1), lv, b) by {
                lemma_select_take_step(src@, i as int, lv, b);
            }
            assert forall|b: int, j: int|
                0 <= b < 256 && 0 <= j < count(src@.take(i + 1), lv, b) implies dst@[offset(
                counts@,
                b,
            ) + j] == #[trigger] select(src@.take(i + 1), lv, b)[j] by {
                lemma_select_take_step(src@, i as int, lv, b);
                lemma_segment_bounds(counts@, b);
                assert(counts@[b] == count(src@, lv, b));
                let prev = select(src@.take(i as int), lv, b);
                if b == d && j == prev.len() {
                    assert(offset(counts@, b) + j == p);
                } else {
                    assert(before[offset(counts@, b) + j] == prev[j]);
                    assert(counts@[b] == count(src@, lv, b));
                    if b < d {
                        lemma_offset_monotone(counts@, b + 1, d as int);
                    } else if b > d {
                        lemma_offset_monotone(counts@, d + 1, b);
                    }
                }
            }
        }
        i = i + 1;
    }
    proof {
        assert(src@.take(i as int) =~= src@);
        lemma_segments_are_grouped(dst@, src@, level as int, counts@, 256);
        assert(dst@.subrange(0, dst@.len() as int) =~= dst@);
    }
}

} // verus!

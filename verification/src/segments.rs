//! Segments: what a partition leaves for the next level to sort.
use vstd::prelude::*;
use vstd::seq_lib::{group_to_multiset_ensures, lemma_multiset_commutative};
use crate::model::{
    is_histogram, lemma_grouped_structure, lemma_locate, lemma_offset_grouped, lemma_offset_monotone,
    lemma_segment_bounds, lemma_segment_unique, offset, partitioned, stable_partition,
};
use crate::radix_key::{le_from, sorted_from, RadixKey};

verus! {

/// Segment `b` of `s` under the layout that `counts` gives.
pub open spec fn segment<T>(s: Seq<T>, counts: Seq<usize>, b: int) -> Seq<T> {
    s.subrange(offset(counts, b), offset(counts, b + 1))
}

/// `after` is `before` with every segment rearranged into ascending order of
/// the key bytes from `level` on.
pub open spec fn segments_refined<T: RadixKey>(
    before: Seq<T>,
    after: Seq<T>,
    counts: Seq<usize>,
    level: int,
) -> bool {
    &&& after.len() == before.len()
    &&& forall|b: int|
        0 <= b < 256 ==> (#[trigger] segment(after, counts, b)).to_multiset() == segment(
            before,
            counts,
            b,
        ).to_multiset()
    &&& forall|b: int| 0 <= b < 256 ==> sorted_from(#[trigger] segment(after, counts, b), level)
}

/// The stable partition puts every element into the segment of its byte.
pub proof fn lemma_stable_partition_is_partitioned<T: RadixKey>(
    counts: Seq<usize>,
    s: Seq<T>,
    level: int,
)
    requires
        is_histogram(counts, s, level),
    ensures
        partitioned(stable_partition(s, level), level, counts),
{
    let x = stable_partition(s, level);
    assert forall|i: int| 0 <= i < x.len() implies offset(counts, (#[trigger] x[i]).key_byte(level) as int)
        <= i < offset(counts, x[i].key_byte(level) as int + 1) by {
        lemma_grouped_structure(s, level, 256, i);
        let b = x[i].key_byte(level) as int;
        lemma_offset_grouped(counts, s, level, b);
        lemma_offset_grouped(counts, s, level, b + 1);
    }
}

/// At the last level a partitioned sequence is sorted.
pub proof fn lemma_partitioned_is_sorted_at_last_level<T: RadixKey>(
    s: Seq<T>,
    counts: Seq<usize>,
    level: int,
)
    requires
        0 <= level,
        level + 1 == T::LEVELS,
        partitioned(s, level, counts),
    ensures
        sorted_from(s, level),
{
    assert forall|i: int, j: int| 0 <= i < j < s.len() implies le_from(s[i], s[j], level) by {
        let bi = s[i].key_byte(level) as int;
        let bj = s[j].key_byte(level) as int;
        if bi > bj {
            lemma_offset_monotone(counts, bj + 1, bi);
        }
        assert(le_from(s[i], s[j], level + 1));
    }
}

/// Rearranging inside the segments keeps every element in the segment of its
/// byte.
pub proof fn lemma_refined_stays_partitioned<T: RadixKey>(
    before: Seq<T>,
    after: Seq<T>,
    counts: Seq<usize>,
    level: int,
    next: int,
)
    requires
        offset(counts, 256) == before.len(),
        partitioned(before, level, counts),
        segments_refined(before, after, counts, next),
    ensures
        partitioned(after, level, counts),
{
    broadcast use group_to_multiset_ensures;

    assert forall|i: int| 0 <= i < after.len() implies offset(
        counts,
        (#[trigger] after[i]).key_byte(level) as int,
    ) <= i < offset(counts, after[i].key_byte(level) as int + 1) by {
        let c = lemma_locate(counts, 256, i);
        lemma_segment_bounds(counts, c);
        let x = after[i];
        let seg_after = segment(after, counts, c);
        let seg_before = segment(before, counts, c);
        assert(seg_after[i - offset(counts, c)] == x);
        assert(seg_after.contains(x));
        assert(seg_after.to_multiset().count(x) > 0);
        assert(seg_before.to_multiset().count(x) > 0);
        assert(seg_before.contains(x));
        let j = choose|j: int| 0 <= j < seg_before.len() && seg_before[j] == x;
        assert(before[offset(counts, c) + j] == x);
        lemma_segment_unique(counts, c, x.key_byte(level) as int, offset(counts, c) + j);
    }
}

/// Rearranging inside the segments keeps the elements of the whole.
pub proof fn lemma_refined_permutes<T: RadixKey>(
    before: Seq<T>,
    after: Seq<T>,
    counts: Seq<usize>,
    next: int,
    n: int,
)
    requires
        0 <= n <= 256,
        offset(counts, 256) == before.len(),
        segments_refined(before, after, counts, next),
    ensures
        after.subrange(0, offset(counts, n)).to_multiset() == before.subrange(
            0,
            offset(counts, n),
        ).to_multiset(),
    decreases n,
{
    if n > 0 {
        lemma_refined_permutes(before, after, counts, next, n - 1);
        lemma_segment_bounds(counts, n - 1);
        let a0 = after.subrange(0, offset(counts, n - 1));
        let b0 = before.subrange(0, offset(counts, n - 1));
        assert(after.subrange(0, offset(counts, n)) =~= a0 + segment(after, counts, n - 1));
        assert(before.subrange(0, offset(counts, n)) =~= b0 + segment(before, counts, n - 1));
        lemma_multiset_commutative(a0, segment(after, counts, n - 1));
        lemma_multiset_commutative(b0, segment(before, counts, n - 1));
    } else {
        assert(after.subrange(0, 0) =~= before.subrange(0, 0));
    }
}

/// A partition by the byte at `level` followed by a sort of every segment
/// from the next level on is a sort from `level` on.
pub proof fn lemma_refined_is_sorted<T: RadixKey>(
    before: Seq<T>,
    after: Seq<T>,
    counts: Seq<usize>,
    level: int,
)
    requires
        0 <= level < T::LEVELS,
        offset(counts, 256) == before.len(),
        partitioned(before, level, counts),
        segments_refined(before, after, counts, level + 1),
    ensures
        after.to_multiset() == before.to_multiset(),
        sorted_from(after, level),
{
    lemma_refined_permutes(before, after, counts, level + 1, 256);
    assert(after.subrange(0, after.len() as int) =~= after);
    assert(before.subrange(0, before.len() as int) =~= before);
    lemma_refined_stays_partitioned(before, after, counts, level, level + 1);
    assert forall|i: int, j: int| 0 <= i < j < after.len() implies le_from(after[i], after[j], level) by {
        let bi = after[i].key_byte(level) as int;
        let bj = after[j].key_byte(level) as int;
        if bi == bj {
            lemma_segment_bounds(counts, bi);
            let seg = segment(after, counts, bi);
            let base = offset(counts, bi);
            assert(sorted_from(seg, level + 1));
            assert(le_from(seg[i - base], seg[j - base], level + 1));
        } else if bi > bj {
            lemma_offset_monotone(counts, bj + 1, bi);
        }
    }
}

} // verus!

//! What holds of every sort and of every histogram.
use vstd::prelude::*;
use vstd::seq_lib::group_to_multiset_ensures;
use crate::is_sort_of;
use crate::model::{
    count, is_histogram, lemma_equal_bytes_make_one_segment, lemma_histogram_total, offset,
    stable_partition,
};
use crate::radix_key::{
    all_have_byte, eq_from, key_of, le_from, lemma_le_from_antisymmetric, lemma_le_from_reflexive,
    lemma_le_from_transitive, sorted, sorted_from, RadixKey,
};
use crate::tiles::{are_tile_histograms, column_sum, lemma_tile_histograms_total, tile};

verus! {

/// Sorting neither makes nor loses an element, and it puts the elements in
/// order: the sorted sequence has every element as often as the sequence it
/// came from, and of any two neighbours the first is not greater than the
/// second.
pub proof fn lemma_sort_permutes_and_orders<T: RadixKey>(before: Seq<T>, after: Seq<T>, i: int)
    requires
        is_sort_of(after, before),
        0 <= i,
        i + 1 < after.len(),
    ensures
        forall|e: T| after.to_multiset().count(e) == before.to_multiset().count(e),
        le_from(after[i], after[i + 1], 0),
{
}

/// Values that agree on their key bytes are not greater than one another.
pub proof fn lemma_eq_from_is_le<T: RadixKey>(a: T, b: T, level: int)
    requires
        eq_from(a, b, level),
    ensures
        le_from(a, b, level),
        le_from(b, a, level),
    decreases T::LEVELS - level,
{
    if level < T::LEVELS {
        assert(a.key_byte(level) == b.key_byte(level));
        lemma_eq_from_is_le(a, b, level + 1);
    }
}

/// A value that lies between two values with the same key bytes has those
/// key bytes too.
pub proof fn lemma_between_equals<T: RadixKey>(lo: T, x: T, hi: T, level: int)
    requires
        le_from(lo, x, level),
        le_from(x, hi, level),
        eq_from(lo, hi, level),
    ensures
        eq_from(x, lo, level),
{
    lemma_eq_from_is_le(lo, hi, level);
    lemma_le_from_transitive(x, hi, lo, level);
    lemma_le_from_antisymmetric(x, lo, level);
}

/// Two sequences with the same elements that are both sorted from `level` on
/// have, place by place, the same key bytes from `level` on.
pub proof fn lemma_sorted_permutations_agree<T: RadixKey>(s: Seq<T>, t: Seq<T>, level: int)
    requires
        sorted_from(s, level),
        sorted_from(t, level),
        s.to_multiset() == t.to_multiset(),
    ensures
        s.len() == t.len(),
        forall|i: int| 0 <= i < s.len() ==> eq_from(#[trigger] s[i], t[i], level),
    decreases s.len(),
{
    broadcast use group_to_multiset_ensures;

    assert(s.len() == s.to_multiset().len());
    assert(t.len() == t.to_multiset().len());
    if s.len() > 0 {
        let n = s.len() as int;
        let e = s[n - 1];
        let f = t[n - 1];
        // The last element of the one stands somewhere in the other.
        assert(s.contains(e));
        assert(t.to_multiset().count(e) > 0);
        assert(t.contains(e));
        let j = choose|j: int| 0 <= j < t.len() && t[j] == e;
        assert(t.contains(f));
        assert(s.to_multiset().count(f) > 0);
        assert(s.contains(f));
        let k = choose|k: int| 0 <= k < s.len() && s[k] == f;
        // So the two last elements are each not greater than the other.
        lemma_le_from_reflexive(e, level);
        lemma_le_from_reflexive(f, level);
        assert(le_from(e, f, level)) by {
            if j < n - 1 {
                assert(le_from(t[j], t[n - 1], level));
            }
        }
        assert(le_from(f, e, level)) by {
            if k < n - 1 {
                assert(le_from(s[k], s[n - 1], level));
            }
        }
        lemma_le_from_antisymmetric(e, f, level);
        // Without them the sequences still have the same elements and are sorted.
        let s1 = s.remove(n - 1);
        let t1 = t.remove(j);
        assert(s1.to_multiset() =~= t1.to_multiset());
        assert forall|a: int, b: int| 0 <= a < b < s1.len() implies le_from(s1[a], s1[b], level) by {
            assert(s1[a] == s[a] && s1[b] == s[b]);
        }
        assert forall|a: int, b: int| 0 <= a < b < t1.len() implies le_from(t1[a], t1[b], level) by {
            let a0 = if a < j { a } else { a + 1 };
            let b0 = if b < j { b } else { b + 1 };
            assert(t1[a] == t[a0] && t1[b] == t[b0]);
        }
        lemma_sorted_permutations_agree(s1, t1, level);
        assert forall|i: int| 0 <= i < s.len() implies eq_from(#[trigger] s[i], t[i], level) by {
            if i == n - 1 {
            } else if i < j {
                assert(s1[i] == s[i] && t1[i] == t[i]);
            } else {
                // From `j` on, every element of `t` has the key bytes of the last one.
                assert(s1[i] == s[i] && t1[i] == t[i + 1]);
                assert(eq_from(s1[i], t1[i], level));
                lemma_le_from_reflexive(t[i], level);
                assert(le_from(e, t[i], level)) by {
                    if j < i {
                        assert(le_from(t[j], t[i], level));
                    }
                }
                assert(le_from(t[i], f, level));
                assert(le_from(e, t[i + 1], level));
                assert(le_from(t[i + 1], f, level)) by {
                    if i + 1 < n - 1 {
                        assert(le_from(t[i + 1], t[n - 1], level));
                    }
                }
                lemma_between_equals(e, t[i], f, level);
                lemma_between_equals(e, t[i + 1], f, level);
            }
        }
    }
}

/// Sorting a sequence that is sorted already changes no key: at every place
/// the sorted sequence has an element with the key that stood there before.
/// (Elements with equal keys may have changed places.)
pub proof fn lemma_sort_is_idempotent<T: RadixKey>(before: Seq<T>, after: Seq<T>)
    requires
        sorted(before),
        is_sort_of(after, before),
    ensures
        after.len() == before.len(),
        forall|i: int| 0 <= i < before.len() ==> key_of(#[trigger] after[i]) == key_of(before[i]),
{
    lemma_sorted_permutations_agree(after, before, 0);
    assert forall|i: int| 0 <= i < before.len() implies key_of(#[trigger] after[i]) == key_of(
        before[i],
    ) by {
        assert(eq_from(after[i], before[i], 0));
        assert(key_of(after[i]) =~= key_of(before[i]));
    }
}

/// The entries of a histogram add up to the length of what was counted, for
/// the bucket and for each of its tiles, and the histograms of the tiles add
/// up, byte by byte, to the histogram of the bucket.
pub proof fn lemma_histograms_conserve<T: RadixKey>(
    counts: Seq<usize>,
    tile_counts: Seq<[usize; 256]>,
    s: Seq<T>,
    tile_size: int,
    level: int,
)
    requires
        0 < tile_size,
        is_histogram(counts, s, level),
        are_tile_histograms(tile_counts, s, tile_size, level),
    ensures
        offset(counts, 256) == s.len(),
        forall|t: int|
            0 <= t < tile_counts.len() ==> offset((#[trigger] tile_counts[t])@, 256) == tile(
                s,
                tile_size,
                t,
            ).len(),
        forall|b: int|
            0 <= b < 256 ==> column_sum(tile_counts, b, tile_counts.len() as int) == #[trigger] counts[b],
{
    lemma_histogram_total(counts, s, level);
    assert forall|t: int| 0 <= t < tile_counts.len() implies offset((#[trigger] tile_counts[t])@, 256)
        == tile(s, tile_size, t).len() by {
        lemma_histogram_total(tile_counts[t]@, tile(s, tile_size, t), level);
    }
    assert forall|b: int| 0 <= b < 256 implies column_sum(tile_counts, b, tile_counts.len() as int)
        == #[trigger] counts[b] by {
        lemma_tile_histograms_total(tile_counts, s, tile_size, level, b);
    }
}

/// Where all elements have the same key, they are in order as they stand,
/// and at every level they share one byte: all of them land in one segment
/// and the partition by that level moves nothing.
pub proof fn lemma_equal_keys_share_bytes<T: RadixKey>(s: Seq<T>, level: int)
    requires
        0 <= level < T::LEVELS,
        s.len() > 0,
        forall|i: int, j: int| 0 <= i < s.len() && 0 <= j < s.len() ==> key_of(s[i]) == key_of(s[j]),
    ensures
        all_have_byte(s, level, s[0].key_byte(level) as int),
        count(s, level, s[0].key_byte(level) as int) == s.len(),
        forall|c: int| c != s[0].key_byte(level) as int ==> count(s, level, c) == 0,
        stable_partition(s, level) == s,
        sorted(s),
{
    assert forall|i: int| 0 <= i < s.len() implies (#[trigger] s[i]).key_byte(level) == s[0].key_byte(
        level,
    ) by {
        assert(key_of(s[i]) == key_of(s[0]));
        assert(key_of(s[i])[level] == s[i].key_byte(level));
        assert(key_of(s[0])[level] == s[0].key_byte(level));
    }
    lemma_equal_bytes_make_one_segment(s, level, s[0].key_byte(level) as int);
    assert forall|i: int, j: int| 0 <= i < j < s.len() implies le_from(s[i], s[j], 0) by {
        assert(key_of(s[i]) == key_of(s[j]));
        assert forall|l: int| 0 <= l < T::LEVELS implies s[i].key_byte(l) == s[j].key_byte(l) by {
            assert(key_of(s[i])[l] == s[i].key_byte(l));
            assert(key_of(s[j])[l] == s[j].key_byte(l));
        }
        lemma_eq_from_is_le(s[i], s[j], 0);
    }
}

} // verus!

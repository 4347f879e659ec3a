//! In-place partition by one key byte, for one thread.
use vstd::prelude::*;
use vstd::seq_lib::to_multiset_update;
use vstd::multiset::group_multiset_axioms;
use crate::model::{
    count, is_histogram, lemma_count_exceeds, lemma_histogram_of_permutation, lemma_histogram_total,
    lemma_locate, lemma_offset_monotone, lemma_segment_bounds, lemma_segment_unique, offset,
    partitioned,
};
use crate::director::sort_partitioned;
use crate::radix_key::{sorted_from, RadixKey};
use crate::tuner::Tuner;
use crate::utils::get_prefix_sums;

verus! {

/// Index `i` lies in the part of segment `c` that is already in place.
pub open spec fn in_place(heads: Seq<usize>, counts: Seq<usize>, c: int, i: int) -> bool {
    offset(counts, c) <= i < heads[c]
}

/// How many slots of the first `n` segments are still to be filled.
pub open spec fn slack(heads: Seq<usize>, counts: Seq<usize>, n: int) -> int
    decreases n,
{
    if n <= 0 {
        0
    } else {
        slack(heads, counts, n - 1) + (offset(counts, n) - heads[n - 1])
    }
}

/// No segment is overfull, so the slack is not negative.
proof fn lemma_slack_bounds(heads: Seq<usize>, counts: Seq<usize>, n: int)
    requires
        0 <= n <= 256,
        forall|c: int| 0 <= c < 256 ==> #[trigger] heads[c] <= offset(counts, c + 1),
    ensures
        slack(heads, counts, n) >= 0,
    decreases n,
{
    if n > 0 {
        lemma_slack_bounds(heads, counts, n - 1);
        assert(heads[n - 1] <= offset(counts, (n - 1) + 1));
    }
}

/// Before anything is placed the slack of the first `n` segments is their size.
proof fn lemma_slack_at_start(heads: Seq<usize>, counts: Seq<usize>, n: int)
    requires
        0 <= n <= 256,
        forall|c: int| 0 <= c < 256 ==> #[trigger] heads[c] == offset(counts, c),
    ensures
        slack(heads, counts, n) == offset(counts, n),
    decreases n,
{
    if n > 0 {
        lemma_slack_at_start(heads, counts, n - 1);
        assert(heads[n - 1] == offset(counts, n - 1));
    }
}

/// Placing one element takes one from the slack.
proof fn lemma_slack_step(heads: Seq<usize>, counts: Seq<usize>, d: int, n: int)
    requires
        0 <= d < heads.len(),
        heads[d] < usize::MAX,
        0 <= n <= heads.len(),
    ensures
        slack(heads.update(d, (heads[d] + 1) as usize), counts, n) == slack(heads, counts, n) - if d < n {
            1int
        } else {
            0int
        },
    decreases n,
{
    if n > 0 {
        lemma_slack_step(heads, counts, d, n - 1);
    }
}

/// Exchanges two elements.
pub fn swap_elements<T: Copy>(bucket: &mut [T], i: usize, j: usize)
    requires
        i < old(bucket)@.len(),
        j < old(bucket)@.len(),
    ensures
        final(bucket)@ == old(bucket)@.update(i as int, old(bucket)@[j as int]).update(
            j as int,
            old(bucket)@[i as int],
        ),
        final(bucket)@.to_multiset() == old(bucket)@.to_multiset(),
{
    let a: T = bucket[i];
    let b: T = bucket[j];
    bucket[i] = b;
    bucket[j] = a;
    proof {
        broadcast use group_multiset_axioms;
        broadcast use vstd::seq_lib::group_to_multiset_ensures;

        let s0 = old(bucket)@;
        let s1 = s0.update(i as int, s0[j as int]);
        to_multiset_update(s0, i as int, s0[j as int]);
        to_multiset_update(s1, j as int, s0[i as int]);
        assert(s0.contains(s0[i as int]));
        assert(s0.contains(s0[j as int]));
        assert(s0.to_multiset().count(s0[i as int]) > 0);
        assert(s0.to_multiset().count(s0[j as int]) > 0);
        assert(s1[j as int] == s0[j as int]);
        assert(bucket@.to_multiset() =~= s0.to_multiset());
    }
}

/// Partitions `bucket` in place by the key byte at `level`: afterwards every
/// element stands in the segment of its byte, the segments laid out by
/// `counts`, the histogram of the bucket. Elements are exchanged along the
/// cycles of displacement; each exchange puts one element into its segment
/// for good, so there are no more exchanges than elements. The order inside a
/// segment is not kept. The result is the number of exchanges.
pub fn ska_sort<T: RadixKey + Copy>(bucket: &mut [T], counts: &[usize; 256], level: usize) -> (exchanges:
    usize)
    requires
        level < T::LEVELS,
        is_histogram(counts@, old(bucket)@, level as int),
    ensures
        final(bucket)@.len() == old(bucket)@.len(),
        final(bucket)@.to_multiset() == old(bucket)@.to_multiset(),
        partitioned(final(bucket)@, level as int, counts@),
        exchanges <= old(bucket)@.len(),
{
    let n: usize = bucket.len();
    let ghost lv = level as int;
    proof {
        lemma_histogram_total(counts@, bucket@, lv);
    }
    let starts: [usize; 256] = get_prefix_sums(counts);
    let mut heads: [usize; 256] = starts;
    let mut exchanges: usize = 0;
    let mut b: usize = 0;
    proof {
        lemma_slack_at_start(heads@, counts@, 256);
        assert forall|c: int| 0 <= c < 256 implies offset(counts@, c) <= #[trigger] heads@[c] <= offset(
            counts@,
            c + 1,
        ) by {
            lemma_segment_bounds(counts@, c);
        }
    }
    while b < 256
        invariant
            b <= 256,
            level < T::LEVELS,
            lv == level as int,
            n == bucket@.len(),
            n == offset(counts@, 256),
            exchanges + slack(heads@, counts@, 256) <= n,
            bucket@.to_multiset() == old(bucket)@.to_multiset(),
            is_histogram(counts@, old(bucket)@, lv),
            forall|c: int| 0 <= c < 256 ==> #[trigger] starts@[c] == offset(counts@, c),
            forall|c: int|
                0 <= c < 256 ==> offset(counts@, c) <= #[trigger] heads@[c] <= offset(counts@, c + 1),
            forall|c: int, i: int|
                0 <= c < 256 && #[trigger] in_place(heads@, counts@, c, i) ==> bucket@[i].key_byte(lv) as int
                    == c,
            forall|c: int| 0 <= c < b ==> #[trigger] heads@[c] == offset(counts@, c + 1),
        decreases 256 - b,
    {
        proof {
            lemma_segment_bounds(counts@, b as int);
            assert(starts@[b as int] == offset(counts@, b as int));
        }
        let end: usize = starts[b] + counts[b];
        while heads[b] < end
            invariant
                b < 256,
                level < T::LEVELS,
                lv == level as int,
                n == bucket@.len(),
                n == offset(counts@, 256),
                exchanges + slack(heads@, counts@, 256) <= n,
                end == offset(counts@, b + 1),
                bucket@.to_multiset() == old(bucket)@.to_multiset(),
                is_histogram(counts@, old(bucket)@, lv),
                forall|c: int|
                    0 <= c < 256 ==> offset(counts@, c) <= #[trigger] heads@[c] <= offset(counts@, c + 1),
                forall|c: int, i: int|
                    0 <= c < 256 && #[trigger] in_place(heads@, counts@, c, i) ==> bucket@[i].key_byte(lv) as int
                        == c,
                forall|c: int| 0 <= c < b ==> #[trigger] heads@[c] == offset(counts@, c + 1),
            decreases slack(heads@, counts@, 256),
        {
            let h: usize = heads[b];
            let ghost heads0 = heads@;
            let ghost bucket0 = bucket@;
            proof {
                lemma_segment_bounds(counts@, b as int);
                assert(offset(counts@, b as int) <= heads@[b as int]);
            }
            let e: T = bucket[h];
            let d: usize = e.get_level(level) as usize;
            if d == b {
                heads[b] = h + 1;
                proof {
                    lemma_slack_step(heads0, counts@, b as int, 256);
                    assert(heads@ =~= heads0.update(b as int, (h + 1) as usize));
                    assert forall|c: int| 0 <= c < 256 implies #[trigger] heads@[c] <= offset(counts@, c + 1) by {
                        assert(heads0[c] <= offset(counts@, c + 1));
                    }
                    lemma_slack_bounds(heads@, counts@, 256);
                    assert forall|c: int, i: int|
                        0 <= c < 256 && #[trigger] in_place(heads@, counts@, c, i) implies bucket@[i].key_byte(
                        lv,
                    ) as int == c by {
                        if !(c == b && i == h) {
                            assert(in_place(heads0, counts@, c, i));
                        }
                    }
                }
            } else {
                let p: usize = heads[d];
                proof {
                    lemma_segment_bounds(counts@, d as int);
                    assert(offset(counts@, d as int) <= heads@[d as int] <= offset(counts@, d + 1));
                    if p == offset(counts@, d + 1) {
                        lemma_histogram_of_permutation(counts@, old(bucket)@, bucket@, lv);
                        assert forall|i: int|
                            offset(counts@, d as int) <= i < offset(counts@, d + 1) implies (
                        #[trigger] bucket@[i]).key_byte(lv) as int == d by {
                            assert(in_place(heads@, counts@, d as int, i));
                        }
                        if h < offset(counts@, d as int) || offset(counts@, d + 1) <= h {
                        } else {
                            lemma_segment_unique(counts@, b as int, d as int, h as int);
                        }
                        lemma_offset_monotone(counts@, d + 1, 256);
                        lemma_count_exceeds(
                            bucket@,
                            lv,
                            d as int,
                            offset(counts@, d as int),
                            offset(counts@, d + 1),
                            h as int,
                        );
                        assert(counts@[d as int] == count(bucket@, lv, d as int));
                        assert(false);
                    }
                    lemma_offset_monotone(counts@, d + 1, 256);
                }
                swap_elements(bucket, h, p);
                heads[d] = p + 1;
                proof {
                    lemma_slack_step(heads0, counts@, d as int, 256);
                    assert(heads@ =~= heads0.update(d as int, (p + 1) as usize));
                    assert forall|c: int| 0 <= c < 256 implies #[trigger] heads@[c] <= offset(counts@, c + 1) by {
                        assert(heads0[c] <= offset(counts@, c + 1));
                    }
                    lemma_slack_bounds(heads@, counts@, 256);
                }
                exchanges = exchanges + 1;
                proof {
                    lemma_slack_step(heads0, counts@, d as int, 256);
                    assert(heads@ =~= heads0.update(d as int, (p + 1) as usize));
                    assert forall|c: int| 0 <= c < 256 implies #[trigger] heads@[c] <= offset(counts@, c + 1) by {
                        assert(heads0[c] <= offset(counts@, c + 1));
                    }
                    lemma_slack_bounds(heads@, counts@, 256);
                    assert forall|c: int, i: int|
                        0 <= c < 256 && #[trigger] in_place(heads@, counts@, c, i) implies bucket@[i].key_byte(
                        lv,
                    ) as int == c by {
                        if c == d && i == p {
                            assert(bucket@[i] == e);
                        } else {
                            assert(in_place(heads0, counts@, c, i));
                            assert(bucket0[i].key_byte(lv) as int == c);
                            lemma_segment_bounds(counts@, c);
                            if i == p {
                                lemma_segment_unique(counts@, c, d as int, i);
                            }
                            if i == h {
                                lemma_segment_unique(counts@, c, b as int, i);
                            }
                            assert(bucket@[i] == bucket0[i]);
                        }
                    }
                }
            }
        }
        b = b + 1;
    }
    proof {
        assert forall|i: int| 0 <= i < bucket@.len() implies offset(
            counts@,
            (#[trigger] bucket@[i]).key_byte(lv) as int,
        ) <= i < offset(counts@, bucket@[i].key_byte(lv) as int + 1) by {
            let c = lemma_locate(counts@, 256, i);
            assert(in_place(heads@, counts@, c, i));
        }
        lemma_slack_bounds(heads@, counts@, 256);
    }
    exchanges
}

/// Sorts `bucket` from `level` on: partitions it in place by the byte at
/// `level`, then sorts the segments one after the other from the next level
/// on. `counts` is the histogram of the bucket at `level`.
pub fn ska_sort_adapter<T: RadixKey + Copy + Send + Sync, Tn: Tuner + Sync>(
    tuner: &Tn,
    bucket: &mut [T],
    counts: &[usize; 256],
    level: usize,
)
    requires
        level < T::LEVELS,
        is_histogram(counts@, old(bucket)@, level as int),
    ensures
        final(bucket)@.len() == old(bucket)@.len(),
        final(bucket)@.to_multiset() == old(bucket)@.to_multiset(),
        sorted_from(final(bucket)@, level as int),
        old(bucket)@.len() < 2 ==> final(bucket)@ == old(bucket)@,
    decreases T::LEVELS - level, 1int,
{
    if bucket.len() < 2 {
        return ;
    }
    proof {
        lemma_histogram_total(counts@, bucket@, level as int);
    }
    let _exchanges: usize = ska_sort(bucket, counts, level);
    sort_partitioned(tuner, bucket, counts, level, false);
}

} // verus!

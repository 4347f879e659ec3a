//! The mathematical model of histograms and byte partitions.
use vstd::prelude::*;
use vstd::seq_lib::*;
use vstd::multiset::*;
use crate::radix_key::{all_have_byte, le_from, sorted_from, RadixKey};

verus! {

/// The elements of `s` whose key byte at `level` is `b`, in the order in which
/// they stand in `s`.
pub open spec fn select<T: RadixKey>(s: Seq<T>, level: int, b: int) -> Seq<T>
    decreases s.len(),
{
    if s.len() == 0 {
        Seq::empty()
    } else {
        let rest = select(s.drop_last(), level, b);
        if s.last().key_byte(level) as int == b {
            rest.push(s.last())
        } else {
            rest
        }
    }
}

/// How many elements of `s` have the key byte `b` at `level`.
pub open spec fn count<T: RadixKey>(s: Seq<T>, level: int, b: int) -> int {
    select(s, level, b).len() as int
}

/// The elements of `s` whose key byte at `level` is below `n`, grouped by that
/// byte in ascending order; inside a group the order of `s` is kept.
pub open spec fn grouped<T: RadixKey>(s: Seq<T>, level: int, n: int) -> Seq<T>
    decreases n,
{
    if n <= 0 {
        Seq::empty()
    } else {
        grouped(s, level, n - 1) + select(s, level, n - 1)
    }
}

/// `s` partitioned by the key byte at `level`: 256 segments in ascending byte
/// order, each in the order of `s`.
pub open spec fn stable_partition<T: RadixKey>(s: Seq<T>, level: int) -> Seq<T> {
    grouped(s, level, 256)
}

/// The sum of the first `n` entries of `counts`: where segment `n` starts.
pub open spec fn offset(counts: Seq<usize>, n: int) -> int
    decreases n,
{
    if n <= 0 {
        0
    } else {
        offset(counts, n - 1) + counts[n - 1]
    }
}

/// `counts` is the 256-entry histogram of `s` at `level`.
pub open spec fn is_histogram<T: RadixKey>(counts: Seq<usize>, s: Seq<T>, level: int) -> bool {
    &&& counts.len() == 256
    &&& forall|b: int| 0 <= b < 256 ==> #[trigger] counts[b] == count(s, level, b)
}

/// `sums` holds the running offsets of `counts`: entry `b` is the sum of the
/// entries of `counts` below `b`.
pub open spec fn is_prefix_sums(sums: Seq<usize>, counts: Seq<usize>) -> bool {
    &&& sums.len() == 256
    &&& counts.len() == 256
    &&& forall|b: int| 0 <= b < 256 ==> #[trigger] sums[b] == offset(counts, b)
}

/// Every element of `s` stands in the segment of its own byte, where the
/// segments are laid out by `counts`.
pub open spec fn partitioned<T: RadixKey>(s: Seq<T>, level: int, counts: Seq<usize>) -> bool {
    forall|i: int|
        0 <= i < s.len() ==> offset(counts, (#[trigger] s[i]).key_byte(level) as int) <= i < offset(
            counts,
            s[i].key_byte(level) as int + 1,
        )
}

/// Appending an element adds it to the selection of its own byte and to no
/// other.
pub proof fn lemma_select_push<T: RadixKey>(s: Seq<T>, e: T, level: int, b: int)
    ensures
        select(s.push(e), level, b) == if e.key_byte(level) as int == b {
            select(s, level, b).push(e)
        } else {
            select(s, level, b)
        },
{
    assert(s.push(e).drop_last() =~= s);
}

/// The selection of a concatenation is the concatenation of the selections.
pub proof fn lemma_select_add<T: RadixKey>(x: Seq<T>, y: Seq<T>, level: int, b: int)
    ensures
        select(x + y, level, b) == select(x, level, b) + select(y, level, b),
    decreases y.len(),
{
    if y.len() == 0 {
        assert(x + y =~= x);
        assert(select(x, level, b) + select(y, level, b) =~= select(x, level, b));
    } else {
        assert((x + y).drop_last() =~= x + y.drop_last());
        lemma_select_add(x, y.drop_last(), level, b);
        let r = select(x, level, b) + select(y.drop_last(), level, b);
        if y.last().key_byte(level) as int == b {
            assert(r.push(y.last()) =~= select(x, level, b) + select(y.drop_last(), level, b).push(
                y.last(),
            ));
        }
    }
}

/// What `select` picks has the byte asked for, and is no longer than `s`.
pub proof fn lemma_select_bytes<T: RadixKey>(s: Seq<T>, level: int, b: int)
    ensures
        select(s, level, b).len() <= s.len(),
        all_have_byte(select(s, level, b), level, b),
        forall|i: int| 0 <= i < select(s, level, b).len() ==> s.contains(#[trigger] select(s, level, b)[i]),
    decreases s.len(),
{
    if s.len() > 0 {
        lemma_select_bytes(s.drop_last(), level, b);
        let rest = select(s.drop_last(), level, b);
        assert forall|i: int| 0 <= i < select(s, level, b).len() implies s.contains(
            #[trigger] select(s, level, b)[i],
        ) by {
            if i < rest.len() {
                assert(s.drop_last().contains(rest[i]));
                let k = choose|k: int| 0 <= k < s.drop_last().len() && s.drop_last()[k] == rest[i];
                assert(s[k] == rest[i]);
            } else {
                assert(s[s.len() - 1] == select(s, level, b)[i]);
            }
        }
    }
}

/// A sequence whose elements all have the byte `b` is its own selection for `b`
/// and has nothing for any other byte.
pub proof fn lemma_select_uniform<T: RadixKey>(s: Seq<T>, level: int, b: int, c: int)
    requires
        all_have_byte(s, level, b),
    ensures
        select(s, level, c) == if c == b { s } else { Seq::<T>::empty() },
    decreases s.len(),
{
    if s.len() > 0 {
        assert(s.drop_last().len() == s.len() - 1);
        assert forall|i: int| 0 <= i < s.drop_last().len() implies (#[trigger] s.drop_last()[i]).key_byte(level) as int == b by {
            assert(s.drop_last()[i] == s[i]);
        }
        lemma_select_uniform(s.drop_last(), level, b, c);
        assert(s.last() == s[s.len() - 1]);
        if c == b {
            assert(s.drop_last().push(s.last()) =~= s);
        }
    } else {
        assert(s =~= Seq::<T>::empty());
    }
}

/// Appending an element to `s` inserts it into the grouped sequence at the
/// end of the segment of its byte.
pub proof fn lemma_grouped_push<T: RadixKey>(s: Seq<T>, e: T, level: int, n: int)
    requires
        0 <= n <= 256,
    ensures
        grouped(s.push(e), level, n) == if (e.key_byte(level) as int) < n {
            grouped(s, level, n).insert(grouped(s, level, e.key_byte(level) as int + 1).len() as int, e)
        } else {
            grouped(s, level, n)
        },
        forall|m: int| 0 <= m <= n ==> grouped(s, level, m).len() <= grouped(s, level, n).len(),
    decreases n,
{
    let d = e.key_byte(level) as int;
    if n > 0 {
        lemma_grouped_push(s, e, level, n - 1);
        lemma_select_push(s, e, level, n - 1);
        let g = grouped(s, level, n - 1);
        let sel = select(s, level, n - 1);
        if d < n - 1 {
            let k = grouped(s, level, d + 1).len() as int;
            assert(k <= g.len());
            assert(g.insert(k, e) + sel =~= (g + sel).insert(k, e));
        } else if d == n - 1 {
            assert(g + sel.push(e) =~= (g + sel).insert((g + sel).len() as int, e));
        }
        assert forall|m: int| 0 <= m <= n implies grouped(s, level, m).len() <= grouped(s, level, n).len() by {
            if m < n {
                assert(grouped(s, level, m).len() <= g.len());
            }
        }
    }
}

/// Grouping by byte only rearranges: the result has the elements of `s`, each as
/// often as `s` has it.
pub proof fn lemma_stable_partition_permutes<T: RadixKey>(s: Seq<T>, level: int)
    ensures
        stable_partition(s, level).len() == s.len(),
        stable_partition(s, level).to_multiset() == s.to_multiset(),
    decreases s.len(),
{
    broadcast use group_to_multiset_ensures;
    if s.len() == 0 {
        lemma_grouped_empty::<T>(s, level, 256);
        assert(stable_partition(s, level) =~= s);
    } else {
        let r = s.drop_last();
        let e = s.last();
        assert(r.push(e) =~= s);
        lemma_stable_partition_permutes(r, level);
        lemma_grouped_push(r, e, level, 256);
        let d = e.key_byte(level) as int;
        let k = grouped(r, level, d + 1).len() as int;
        assert(0 <= d + 1 <= 256);
        assert(k <= grouped(r, level, 256).len());
        to_multiset_insert(grouped(r, level, 256), k, e);
        assert(s.to_multiset() =~= r.to_multiset().insert(e));
    }
}

/// Nothing grouped is nothing.
pub proof fn lemma_grouped_empty<T: RadixKey>(s: Seq<T>, level: int, n: int)
    requires
        s.len() == 0,
    ensures
        grouped(s, level, n) == Seq::<T>::empty(),
    decreases n,
{
    if n > 0 {
        lemma_grouped_empty(s, level, n - 1);
        assert(grouped(s, level, n - 1) + select(s, level, n - 1) =~= Seq::<T>::empty());
    }
}

/// Under a histogram the running offsets are the lengths of the grouped prefixes.
pub proof fn lemma_offset_grouped<T: RadixKey>(counts: Seq<usize>, s: Seq<T>, level: int, n: int)
    requires
        is_histogram(counts, s, level),
        0 <= n <= 256,
    ensures
        offset(counts, n) == grouped(s, level, n).len(),
    decreases n,
{
    if n > 0 {
        lemma_offset_grouped(counts, s, level, n - 1);
        assert(counts[n - 1] == count(s, level, n - 1));
    }
}

/// Running offsets never decrease, and start at zero.
pub proof fn lemma_offset_monotone(counts: Seq<usize>, m: int, n: int)
    requires
        m <= n,
    ensures
        0 <= offset(counts, m) <= offset(counts, n),
    decreases n,
{
    if n > 0 {
        if m < n {
            lemma_offset_monotone(counts, m, n - 1);
        } else {
            lemma_offset_monotone(counts, m - 1, n - 1);
        }
    }
}

/// The entries of a histogram add up to the length of the sequence.
pub proof fn lemma_histogram_total<T: RadixKey>(counts: Seq<usize>, s: Seq<T>, level: int)
    requires
        is_histogram(counts, s, level),
    ensures
        offset(counts, 256) == s.len(),
{
    lemma_offset_grouped(counts, s, level, 256);
    lemma_stable_partition_permutes(s, level);
}

/// Taking one more element of `s` adds it to the selection of its own byte and
/// to no other.
pub proof fn lemma_select_take_step<T: RadixKey>(s: Seq<T>, i: int, level: int, b: int)
    requires
        0 <= i < s.len(),
    ensures
        select(s.take(i + 1), level, b) == if s[i].key_byte(level) as int == b {
            select(s.take(i), level, b).push(s[i])
        } else {
            select(s.take(i), level, b)
        },
        select(s.take(i + 1), level, b).len() <= select(s, level, b).len(),
        select(s.take(i), level, b).len() <= select(s, level, b).len(),
{
    assert(s.take(i + 1) =~= s.take(i).push(s[i]));
    lemma_select_push(s.take(i), s[i], level, b);
    assert(s =~= s.take(i + 1) + s.skip(i + 1));
    lemma_select_add(s.take(i + 1), s.skip(i + 1), level, b);
}

/// A sequence that holds, segment by segment, the selections of `s` is `s`
/// grouped by byte.
pub proof fn lemma_segments_are_grouped<T: RadixKey>(
    x: Seq<T>,
    s: Seq<T>,
    level: int,
    counts: Seq<usize>,
    n: int,
)
    requires
        is_histogram(counts, s, level),
        0 <= n <= 256,
        x.len() >= offset(counts, n),
        forall|b: int, j: int|
            0 <= b < n && 0 <= j < count(s, level, b) ==> x[offset(counts, b) + j]
                == #[trigger] select(s, level, b)[j],
    ensures
        x.subrange(0, offset(counts, n)) == grouped(s, level, n),
    decreases n,
{
    if n > 0 {
        lemma_offset_monotone(counts, n - 1, n);
        lemma_offset_monotone(counts, 0, n - 1);
        lemma_segments_are_grouped(x, s, level, counts, n - 1);
        lemma_offset_grouped(counts, s, level, n - 1);
        lemma_offset_grouped(counts, s, level, n);
        let g = grouped(s, level, n - 1);
        let sel = select(s, level, n - 1);
        let y = x.subrange(0, offset(counts, n));
        assert(y.len() == (g + sel).len());
        assert forall|k: int| 0 <= k < y.len() implies y[k] == (g + sel)[k] by {
            if k < g.len() {
                assert(x.subrange(0, offset(counts, n - 1))[k] == g[k]);
            } else {
                let j = k - g.len();
                assert(x[offset(counts, n - 1) + j] == select(s, level, n - 1)[j]);
            }
        }
        assert(y =~= g + sel);
    } else {
        assert(x.subrange(0, 0) =~= Seq::<T>::empty());
    }
}

/// Where an element of the grouped sequence stands: in the segment of its own
/// byte, at the place it has in the selection for that byte.
pub proof fn lemma_grouped_structure<T: RadixKey>(s: Seq<T>, level: int, n: int, i: int)
    requires
        0 <= n <= 256,
        0 <= i < grouped(s, level, n).len(),
    ensures
        ({
            let b = grouped(s, level, n)[i].key_byte(level) as int;
            &&& 0 <= b < n
            &&& grouped(s, level, b).len() <= i < grouped(s, level, b + 1).len()
            &&& grouped(s, level, n)[i] == select(s, level, b)[i - grouped(s, level, b).len()]
        }),
    decreases n,
{
    if n > 0 {
        let g = grouped(s, level, n - 1);
        let sel = select(s, level, n - 1);
        if i < g.len() {
            lemma_grouped_structure(s, level, n - 1, i);
        } else {
            lemma_select_bytes(s, level, n - 1);
            assert(sel[i - g.len()].key_byte(level) as int == n - 1);
        }
    }
}

/// The lengths of the grouped prefixes never decrease.
pub proof fn lemma_grouped_monotone<T: RadixKey>(s: Seq<T>, level: int, m: int, n: int)
    requires
        m <= n,
    ensures
        grouped(s, level, m).len() <= grouped(s, level, n).len(),
    decreases n - m,
{
    if m < n {
        lemma_grouped_monotone(s, level, m, n - 1);
        if n <= 0 {
            assert(grouped(s, level, n).len() == 0);
        }
    }
}

/// Selecting keeps the order of `s`: a sorted sequence has sorted selections.
pub proof fn lemma_select_sorted<T: RadixKey>(s: Seq<T>, level: int, b: int, from: int)
    requires
        sorted_from(s, from),
    ensures
        sorted_from(select(s, level, b), from),
    decreases s.len(),
{
    if s.len() > 0 {
        let r = s.drop_last();
        assert forall|i: int, j: int| 0 <= i < j < r.len() implies le_from(r[i], r[j], from) by {
            assert(r[i] == s[i] && r[j] == s[j]);
        }
        lemma_select_sorted(r, level, b, from);
        lemma_select_bytes(r, level, b);
        let sel = select(s, level, b);
        let rest = select(r, level, b);
        assert forall|i: int, j: int| 0 <= i < j < sel.len() implies le_from(sel[i], sel[j], from) by {
            if j < rest.len() {
                assert(le_from(rest[i], rest[j], from));
            } else {
                assert(r.contains(rest[i]));
                let k = choose|k: int| 0 <= k < r.len() && r[k] == rest[i];
                assert(le_from(s[k], s[s.len() - 1], from));
            }
        }
    }
}

/// One stable pass at `level` over a sequence that is sorted from the next
/// level on leaves it sorted from `level` on.
pub proof fn lemma_stable_partition_sorts<T: RadixKey>(s: Seq<T>, level: int)
    requires
        0 <= level < T::LEVELS,
        sorted_from(s, level + 1),
    ensures
        sorted_from(stable_partition(s, level), level),
{
    let x = stable_partition(s, level);
    assert forall|i: int, j: int| 0 <= i < j < x.len() implies le_from(x[i], x[j], level) by {
        lemma_grouped_structure(s, level, 256, i);
        lemma_grouped_structure(s, level, 256, j);
        let bi = x[i].key_byte(level) as int;
        let bj = x[j].key_byte(level) as int;
        if bi == bj {
            lemma_select_sorted(s, level, bi, level + 1);
            let base = grouped(s, level, bi).len();
            assert(le_from(select(s, level, bi)[i - base], select(s, level, bi)[j - base], level + 1));
        } else if bi > bj {
            lemma_grouped_monotone(s, level, bj + 1, bi);
        }
    }
}

/// Segment `b` lies inside the range that the 256 segments cover together.
pub proof fn lemma_segment_bounds(counts: Seq<usize>, b: int)
    requires
        0 <= b < 256,
    ensures
        0 <= offset(counts, b),
        offset(counts, b + 1) == offset(counts, b) + counts[b],
        offset(counts, b + 1) <= offset(counts, 256),
{
    lemma_offset_monotone(counts, 0, b);
    lemma_offset_monotone(counts, b + 1, 256);
}

/// A grouped prefix is the front of every longer one.
pub proof fn lemma_grouped_prefix<T: RadixKey>(s: Seq<T>, level: int, m: int, n: int)
    requires
        0 <= m <= n,
    ensures
        grouped(s, level, m).len() <= grouped(s, level, n).len(),
        grouped(s, level, n).subrange(0, grouped(s, level, m).len() as int) == grouped(s, level, m),
    decreases n - m,
{
    if m < n {
        lemma_grouped_prefix(s, level, m, n - 1);
        assert(grouped(s, level, n).subrange(0, grouped(s, level, m).len() as int) =~= grouped(
            s,
            level,
            n - 1,
        ).subrange(0, grouped(s, level, m).len() as int));
    } else {
        assert(grouped(s, level, n).subrange(0, grouped(s, level, n).len() as int) =~= grouped(
            s,
            level,
            n,
        ));
    }
}

/// Segment `b` of the partitioned sequence is the selection for `b`.
pub proof fn lemma_partition_segment<T: RadixKey>(counts: Seq<usize>, s: Seq<T>, level: int, b: int)
    requires
        is_histogram(counts, s, level),
        0 <= b < 256,
    ensures
        0 <= offset(counts, b) <= offset(counts, b + 1) <= s.len(),
        stable_partition(s, level).subrange(offset(counts, b), offset(counts, b + 1)) == select(
            s,
            level,
            b,
        ),
{
    lemma_offset_grouped(counts, s, level, b);
    lemma_offset_grouped(counts, s, level, b + 1);
    lemma_grouped_prefix(s, level, b + 1, 256);
    lemma_stable_partition_permutes(s, level);
    lemma_segment_bounds(counts, b);
    let x = stable_partition(s, level);
    let g = grouped(s, level, b);
    let sel = select(s, level, b);
    assert forall|j: int| 0 <= j < sel.len() implies x.subrange(offset(counts, b), offset(counts, b + 1))[j]
        == sel[j] by {
        assert(x.subrange(0, (g + sel).len() as int)[g.len() + j] == (g + sel)[g.len() + j]);
    }
    assert(x.subrange(offset(counts, b), offset(counts, b + 1)) =~= sel);
}

/// The predicate "has the byte `b` at `level`".
pub open spec fn has_byte<T: RadixKey>(level: int, b: int) -> spec_fn(T) -> bool {
    |e: T| e.key_byte(level) as int == b
}

/// The selection for a byte holds exactly the elements that have the byte,
/// each as often as the sequence has it.
pub proof fn lemma_select_multiset<T: RadixKey>(s: Seq<T>, level: int, b: int)
    ensures
        select(s, level, b).to_multiset() == s.to_multiset().filter(has_byte::<T>(level, b)),
    decreases s.len(),
{
    broadcast use group_to_multiset_ensures;
    broadcast use group_multiset_axioms;

    let f = has_byte::<T>(level, b);
    if s.len() == 0 {
        assert(select(s, level, b).to_multiset() =~= s.to_multiset().filter(f));
    } else {
        let r = s.drop_last();
        let e = s.last();
        assert(r.push(e) =~= s);
        lemma_select_multiset(r, level, b);
        assert(s.to_multiset() =~= r.to_multiset().insert(e));
        if f(e) {
            assert(select(s, level, b).to_multiset() =~= select(r, level, b).to_multiset().insert(e));
        }
        assert(select(s, level, b).to_multiset() =~= s.to_multiset().filter(f));
    }
}

/// A histogram belongs to the elements, not to their order: two sequences
/// with the same elements have the same counts.
pub proof fn lemma_count_of_permutation<T: RadixKey>(s1: Seq<T>, s2: Seq<T>, level: int, b: int)
    requires
        s1.to_multiset() == s2.to_multiset(),
    ensures
        count(s1, level, b) == count(s2, level, b),
{
    broadcast use group_to_multiset_ensures;

    lemma_select_multiset(s1, level, b);
    lemma_select_multiset(s2, level, b);
    assert(select(s1, level, b).len() == select(s1, level, b).to_multiset().len());
    assert(select(s2, level, b).len() == select(s2, level, b).to_multiset().len());
}

/// A histogram of a sequence is a histogram of each of its rearrangements.
pub proof fn lemma_histogram_of_permutation<T: RadixKey>(
    counts: Seq<usize>,
    s1: Seq<T>,
    s2: Seq<T>,
    level: int,
)
    requires
        s1.to_multiset() == s2.to_multiset(),
        is_histogram(counts, s1, level),
    ensures
        is_histogram(counts, s2, level),
{
    assert forall|b: int| 0 <= b < 256 implies #[trigger] counts[b] == count(s2, level, b) by {
        lemma_count_of_permutation(s1, s2, level, b);
    }
}

/// An element with the byte `b` is counted.
pub proof fn lemma_count_positive<T: RadixKey>(s: Seq<T>, level: int, b: int, k: int)
    requires
        0 <= k < s.len(),
        s[k].key_byte(level) as int == b,
    ensures
        count(s, level, b) >= 1,
    decreases s.len(),
{
    if k < s.len() - 1 {
        assert(s.drop_last()[k] == s[k]);
        lemma_count_positive(s.drop_last(), level, b, k);
    }
}

/// A stretch of elements that all have the byte `b`, and one more such
/// element outside it, make the count exceed the length of the stretch.
pub proof fn lemma_count_exceeds<T: RadixKey>(s: Seq<T>, level: int, b: int, lo: int, hi: int, k: int)
    requires
        0 <= lo <= hi <= s.len(),
        forall|i: int| lo <= i < hi ==> (#[trigger] s[i]).key_byte(level) as int == b,
        0 <= k < s.len(),
        k < lo || hi <= k,
        s[k].key_byte(level) as int == b,
    ensures
        count(s, level, b) > hi - lo,
{
    let front = s.subrange(0, lo);
    let mid = s.subrange(lo, hi);
    let back = s.subrange(hi, s.len() as int);
    assert(s =~= front + mid + back);
    lemma_select_add(front + mid, back, level, b);
    lemma_select_add(front, mid, level, b);
    assert(all_have_byte(mid, level, b)) by {
        assert forall|i: int| 0 <= i < mid.len() implies (#[trigger] mid[i]).key_byte(level) as int == b by {
            assert(mid[i] == s[lo + i]);
        }
    }
    lemma_select_uniform(mid, level, b, b);
    if k < lo {
        assert(front[k] == s[k]);
        lemma_count_positive(front, level, b, k);
    } else {
        assert(back[k - hi] == s[k]);
        lemma_count_positive(back, level, b, k - hi);
    }
}

/// Every index below the total lies in exactly one segment.
pub proof fn lemma_locate(counts: Seq<usize>, n: int, k: int) -> (b: int)
    requires
        0 <= n,
        0 <= k < offset(counts, n),
    ensures
        0 <= b < n,
        offset(counts, b) <= k < offset(counts, b + 1),
    decreases n,
{
    if k < offset(counts, n - 1) {
        lemma_locate(counts, n - 1, k)
    } else {
        n - 1
    }
}

/// Two segments that share an index are the same segment.
pub proof fn lemma_segment_unique(counts: Seq<usize>, b: int, c: int, k: int)
    requires
        offset(counts, b) <= k < offset(counts, b + 1),
        offset(counts, c) <= k < offset(counts, c + 1),
    ensures
        b == c,
{
    if b < c {
        lemma_offset_monotone(counts, b + 1, c);
    } else if c < b {
        lemma_offset_monotone(counts, c + 1, b);
    }
}

/// Grouping a sequence whose elements all have the byte `b`: the groups below
/// `b` are empty and the group of `b` is the sequence.
pub proof fn lemma_grouped_of_uniform<T: RadixKey>(s: Seq<T>, level: int, b: int, n: int)
    requires
        0 <= b < 256,
        0 <= n <= 256,
        all_have_byte(s, level, b),
    ensures
        grouped(s, level, n) == if b < n {
            s
        } else {
            Seq::<T>::empty()
        },
    decreases n,
{
    if n > 0 {
        lemma_grouped_of_uniform(s, level, b, n - 1);
        lemma_select_uniform(s, level, b, n - 1);
        if b < n - 1 {
            assert(s + Seq::<T>::empty() =~= s);
        } else if b == n - 1 {
            assert(Seq::<T>::empty() + s =~= s);
        } else {
            assert(Seq::<T>::empty() + Seq::<T>::empty() =~= Seq::<T>::empty());
        }
    }
}

/// Where all elements have the same byte at a level, the histogram of that
/// level has one entry that is not zero, and the partition by that level
/// moves nothing.
pub proof fn lemma_equal_bytes_make_one_segment<T: RadixKey>(s: Seq<T>, level: int, b: int)
    requires
        0 <= b < 256,
        all_have_byte(s, level, b),
    ensures
        count(s, level, b) == s.len(),
        forall|c: int| c != b ==> count(s, level, c) == 0,
        stable_partition(s, level) == s,
{
    lemma_select_uniform(s, level, b, b);
    assert forall|c: int| c != b implies count(s, level, c) == 0 by {
        lemma_select_uniform(s, level, b, c);
    }
    lemma_grouped_of_uniform(s, level, b, 256);
}

/// `s` after one stable partition for each of the levels `level..LEVELS`,
/// the least significant level first.
pub open spec fn counting_passes<T: RadixKey>(s: Seq<T>, level: int) -> Seq<T>
    decreases T::LEVELS - level,
{
    if level >= T::LEVELS {
        s
    } else {
        stable_partition(counting_passes(s, level + 1), level)
    }
}

/// The passes leave a sequence of fewer than two elements as it is.
pub proof fn lemma_counting_passes_of_short<T: RadixKey>(s: Seq<T>, level: int)
    requires
        s.len() < 2,
    ensures
        counting_passes(s, level) == s,
    decreases T::LEVELS - level,
{
    if level < T::LEVELS {
        lemma_counting_passes_of_short(s, level + 1);
        if s.len() == 0 {
            lemma_grouped_empty(s, level, 256);
        } else {
            lemma_equal_bytes_make_one_segment(s, level, s[0].key_byte(level) as int);
        }
    }
}

} // verus!

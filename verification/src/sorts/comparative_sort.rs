//! The fallback: a comparison sort on the key bytes.
use std::cmp::Ordering;
use vstd::prelude::*;
use vstd::seq_lib::group_to_multiset_ensures;
use crate::radix_key::{le_at, sorted_at, RadixKey};

verus! {

/// Compares two values lexicographically over the key bytes of the levels
/// `level..LEVELS`.
pub fn compare_from<T: RadixKey>(a: &T, b: &T, level: usize) -> (order: Ordering)
    requires
        level <= T::LEVELS,
    ensures
        order != Ordering::Greater <==> le_at(*a, *b, level),
        order != Ordering::Less <==> le_at(*b, *a, level),
{
    let mut l: usize = level;
    while l < T::LEVELS
        invariant
            level <= l <= T::LEVELS,
            le_at(*a, *b, level) <==> le_at(*a, *b, l),
            le_at(*b, *a, level) <==> le_at(*b, *a, l),
        decreases T::LEVELS - l,
    {
        let x: u8 = a.get_level(l);
        let y: u8 = b.get_level(l);
        if x < y {
            return Ordering::Less;
        }
        if x > y {
            return Ordering::Greater;
        }
        l = l + 1;
    }
    Ordering::Equal
}

/// `sort_unstable_by` of std with [`compare_from`] as the comparator: the
/// slice is rearranged so that no element is greater than a later one. The
/// comparator is a total order, so std does not panic.
#[verifier::external_body]
fn sort_unstable_by_levels<T: RadixKey>(bucket: &mut [T], level: usize)
    requires
        level <= T::LEVELS,
    ensures
        final(bucket)@.to_multiset() == old(bucket)@.to_multiset(),
        sorted_at(final(bucket)@, level),
{
    bucket.sort_unstable_by(|a, b| compare_from(a, b, level))
}

/// Sorts `bucket` by the key bytes of the levels `level..LEVELS` with the
/// comparison sort of the standard library.
pub fn comparative_sort<T: RadixKey>(bucket: &mut [T], level: usize)
    requires
        level <= T::LEVELS,
    ensures
        final(bucket)@.to_multiset() == old(bucket)@.to_multiset(),
        final(bucket)@.len() == old(bucket)@.len(),
        sorted_at(final(bucket)@, level),
        old(bucket)@.len() < 2 ==> final(bucket)@ == old(bucket)@,
{
    if bucket.len() < 2 {
        return ;
    }
    sort_unstable_by_levels(bucket, level);
    proof {
        broadcast use group_to_multiset_ensures;

        assert(bucket@.len() == bucket@.to_multiset().len());
        assert(old(bucket)@.len() == old(bucket)@.to_multiset().len());
    }
}

} // verus!

//! Adaptive, parallel, unstable radix sort for values with fixed-width byte keys.
//!
//! A type describes its key through [`RadixKey`]; [`RadixSort`] then sorts
//! slices and vectors of it in place, in ascending key order. Elements with
//! equal keys may change places.
use vstd::prelude::*;

pub mod director;
pub mod laws;
pub mod model;
pub mod parallel;
pub mod radix_key;
pub mod radix_key_impl;
pub mod segments;
pub mod sorts;
pub mod tiles;
pub mod tuner;
pub mod tuners;
pub mod tuning_parameters;
pub mod utils;

use crate::director::{director, sort_bucket};
use crate::radix_key::sorted;
pub use crate::radix_key::RadixKey;
use crate::tuner::Tuner;
use crate::tuning_parameters::TuningParameters;
use crate::utils::par_get_counts;

verus! {

/// `after` is `before` sorted: the same elements, in ascending key order. A
/// sequence of fewer than two elements is left as it is.
pub open spec fn is_sort_of<T: RadixKey>(after: Seq<T>, before: Seq<T>) -> bool {
    &&& after.len() == before.len()
    &&& after.to_multiset() == before.to_multiset()
    &&& sorted(after)
    &&& before.len() < 2 ==> after == before
}

/// Sorts `bucket` with the standard tuning: takes the histogram of the most
/// significant byte, in parallel where the bucket is large, and hands the
/// bucket to the director at level 0.
pub fn radix_sort_bucket_start<T: RadixKey + Copy + Send + Sync>(bucket: &mut [T])
    requires
        T::LEVELS >= 1,
    ensures
        is_sort_of(final(bucket)@, old(bucket)@),
{
    if bucket.len() < 2 {
        return ;
    }
    let tuner: TuningParameters = TuningParameters::new(T::LEVELS);
    let counts: [usize; 256] = par_get_counts(bucket, 0, tuner.parallel_count_threshold());
    director(&tuner, bucket, &counts, 0);
}

/// Sorts `bucket` in ascending key order with a tuning policy of the
/// caller's. The policy decides which strategy sorts which bucket; whatever
/// it answers, the bucket comes out sorted. The key must have at least one
/// level.
pub fn radix_sort_with_tuner<T: RadixKey + Copy + Send + Sync, Tn: Tuner + Sync>(
    tuner: &Tn,
    bucket: &mut [T],
)
    requires
        T::LEVELS >= 1,
    ensures
        is_sort_of(final(bucket)@, old(bucket)@),
{
    sort_bucket(tuner, bucket, 0);
}

/// Sorts `bucket` in ascending key order. The key must have at least one
/// level.
pub fn radix_sort_inner<T: RadixKey + Copy + Send + Sync>(bucket: &mut [T])
    requires
        T::LEVELS >= 1,
    ensures
        is_sort_of(final(bucket)@, old(bucket)@),
{
    radix_sort_bucket_start(bucket);
}

/// Collections that can be sorted in place by the radix key of their elements.
pub trait RadixSort {
    /// The key of the elements has at least one level.
    spec fn has_levels(&self) -> bool;

    /// `self` is `before` sorted.
    spec fn sorts(&self, before: &Self) -> bool;

    /// Sorts the collection in place, unstably, in ascending order of the
    /// keys that `RadixKey` gives for its elements.
    fn radix_sort_unstable(&mut self)
        requires
            old(self).has_levels(),
        ensures
            final(self).sorts(old(self)),
    ;
}

/// Vectors are sorted as slices are.
impl<T: RadixKey + Copy + Send + Sync> RadixSort for Vec<T> {
    open spec fn has_levels(&self) -> bool {
        T::LEVELS >= 1
    }

    open spec fn sorts(&self, before: &Self) -> bool {
        is_sort_of(self@, before@)
    }

    fn radix_sort_unstable(&mut self) {
        radix_sort_inner(self.as_mut_slice());
    }
}

/// Slices are sorted by [`radix_sort_inner`].
impl<T: RadixKey + Copy + Send + Sync> RadixSort for [T] {
    open spec fn has_levels(&self) -> bool {
        T::LEVELS >= 1
    }

    open spec fn sorts(&self, before: &Self) -> bool {
        is_sort_of(self@, before@)
    }

    fn radix_sort_unstable(&mut self) {
        radix_sort_inner(self);
    }
}

} // verus!

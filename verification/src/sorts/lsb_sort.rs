//! Least-significant-byte-first sorting: one stable pass per level.
use vstd::prelude::*;
use crate::model::{
    counting_passes, lemma_counting_passes_of_short, lemma_stable_partition_permutes,
    lemma_stable_partition_sorts,
};
use crate::radix_key::{sorted_from, RadixKey};
use crate::sorts::out_of_place_sort::out_of_place_sort;
use crate::utils::{get_counts, get_tmp_bucket};

verus! {

/// Sorts `bucket` by the key bytes of the levels `level..LEVELS` with one
/// stable counting pass per level, from the least significant level up to
/// `level`. The passes go to and fro between the bucket and one temporary
/// buffer of the same size. Elements whose keys agree from `level` on keep
/// their order.
pub fn lsb_sort<T: RadixKey + Copy>(bucket: &mut [T], level: usize)
    requires
        level <= T::LEVELS,
    ensures
        final(bucket)@ == counting_passes(old(bucket)@, level as int),
        final(bucket)@.len() == old(bucket)@.len(),
        final(bucket)@.to_multiset() == old(bucket)@.to_multiset(),
        sorted_from(final(bucket)@, level as int),
        old(bucket)@.len() < 2 ==> final(bucket)@ == old(bucket)@,
{
    if bucket.len() < 2 {
        proof {
            lemma_counting_passes_of_short(bucket@, level as int);
        }
        return ;
    }
    let mut tmp: Vec<T> = get_tmp_bucket(bucket);
    let mut in_tmp: bool = false;
    let mut pass: usize = T::LEVELS;
    while pass > level
        invariant
            level <= pass <= T::LEVELS,
            tmp@.len() == bucket@.len(),
            bucket@.len() == old(bucket)@.len(),
            (if in_tmp { tmp@ } else { bucket@ }) == counting_passes(old(bucket)@, pass as int),
            (if in_tmp { tmp@ } else { bucket@ }).to_multiset() == old(bucket)@.to_multiset(),
            sorted_from(if in_tmp { tmp@ } else { bucket@ }, pass as int),
        decreases pass,
    {
        pass = pass - 1;
        if in_tmp {
            let counts: [usize; 256] = get_counts(tmp.as_slice(), pass);
            proof {
                lemma_stable_partition_permutes(tmp@, pass as int);
                lemma_stable_partition_sorts(tmp@, pass as int);
            }
            out_of_place_sort(tmp.as_slice(), bucket, &counts, pass);
        } else {
            let counts: [usize; 256] = get_counts(bucket, pass);
            proof {
                lemma_stable_partition_permutes(bucket@, pass as int);
                lemma_stable_partition_sorts(bucket@, pass as int);
            }
            out_of_place_sort(bucket, tmp.as_mut_slice(), &counts, pass);
        }
        in_tmp = !in_tmp;
    }
    if in_tmp {
        bucket.copy_from_slice(tmp.as_slice());
    }
}

} // verus!

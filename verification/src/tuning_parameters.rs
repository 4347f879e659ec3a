//! The tuning policy: which strategy sorts a bucket of a given size.
use vstd::prelude::*;
use crate::tuner::{Strategy, Tuner};

verus! {

/// Buckets below this size go to the comparison sort.
pub const SMALL_BUCKET_THRESHOLD: usize = 32;

/// The read size of a worker before it is scaled by the CPU count.
pub const BASE_READ_SIZE: usize = 32768;

/// The thresholds of the standard policy.
pub struct TuningParameters {
    /// The number of CPUs that were found.
    pub cpus: usize,
    /// From this size on a bucket is partitioned by tile recombination.
    pub recombinating_sort_threshold: usize,
    /// From this size on a bucket is partitioned in parallel.
    pub scanning_sort_threshold: usize,
    /// From this size on a bucket that is not partitioned in parallel is
    /// partitioned in place; below it, it is sorted by counting passes.
    pub ska_sort_threshold: usize,
    /// From this size on a histogram is computed in parallel.
    pub par_count_threshold: usize,
    /// How many elements a worker reads at a time when it counts.
    pub scanner_read_size: usize,
}

/// `num_cpus::get`: the number of CPUs available to this process. The crate
/// documents that it is at least 1.
pub assume_specification[ num_cpus::get ]() -> (cpus: usize)
    ensures
        cpus >= 1,
;

/// The threshold of the in-place partition for a key of `levels` bytes.
pub open spec fn ska_threshold_for(levels: int) -> int {
    if levels <= 4 {
        500_000
    } else {
        200_000
    }
}

/// The strategy that the standard policy picks.
pub open spec fn standard_strategy(
    p: TuningParameters,
    len: int,
    remaining_levels: int,
    threads: int,
) -> Strategy {
    if len < SMALL_BUCKET_THRESHOLD {
        Strategy::Fallback
    } else if threads >= 2 && len >= p.scanning_sort_threshold && len >= p.recombinating_sort_threshold {
        Strategy::TileRecombination
    } else if threads >= 2 && len >= p.scanning_sort_threshold {
        Strategy::ParallelHistogramMsd
    } else if len >= ska_threshold_for(remaining_levels) {
        Strategy::SingleThreadedMsd
    } else {
        Strategy::LsdMultiPass
    }
}

impl TuningParameters {
    /// The standard thresholds for a key of `levels` bytes, on this machine.
    pub fn new(levels: usize) -> (p: Self)
        ensures
            p.cpus >= 1,
            p.recombinating_sort_threshold == 350_000,
            p.scanning_sort_threshold == 300_000,
            p.ska_sort_threshold == ska_threshold_for(levels as int),
            p.par_count_threshold == 400_000,
            p.scanner_read_size == BASE_READ_SIZE,
    {
        Self {
            cpus: num_cpus::get(),
            recombinating_sort_threshold: Self::recombinating_sort_threshold(),
            scanning_sort_threshold: Self::scanning_sort_threshold(),
            ska_sort_threshold: Self::ska_sort_threshold(levels),
            par_count_threshold: Self::par_count_threshold(),
            scanner_read_size: Self::scanner_read_size(),
        }
    }

    /// The size from which a bucket is partitioned by tile recombination.
    pub fn recombinating_sort_threshold() -> (threshold: usize)
        ensures
            threshold == 350_000,
    {
        350_000
    }

    /// The size from which a bucket is partitioned in parallel.
    pub fn scanning_sort_threshold() -> (threshold: usize)
        ensures
            threshold == 300_000,
    {
        300_000
    }

    /// The size from which a bucket with `levels` key bytes to go is
    /// partitioned in place rather than sorted by counting passes.
    pub fn ska_sort_threshold(levels: usize) -> (threshold: usize)
        ensures
            threshold == ska_threshold_for(levels as int),
    {
        if levels <= 4 {
            500_000
        } else {
            200_000
        }
    }

    /// The size from which a histogram is computed in parallel.
    pub fn par_count_threshold() -> (threshold: usize)
        ensures
            threshold == 400_000,
    {
        400_000
    }

    /// The read size of a worker on this machine.
    pub fn scanner_read_size() -> (size: usize)
        ensures
            size == BASE_READ_SIZE,
    {
        Self::read_size_for(num_cpus::get())
    }

    /// The read size of a worker on a machine with `cpus` CPUs: the base size
    /// divided by a scaling factor. The factor is the rounded-up binary
    /// logarithm of the CPU count, capped at 1; where that is 0, on a single
    /// CPU, the base size stays undivided.
    pub fn read_size_for(cpus: usize) -> (size: usize)
        ensures
            size == BASE_READ_SIZE,
    {
        let scaling_factor: usize = if cpus >= 2 {
            1
        } else {
            0
        };
        if scaling_factor == 0 {
            BASE_READ_SIZE
        } else {
            BASE_READ_SIZE / scaling_factor
        }
    }
}

/// The standard policy.
impl Tuner for TuningParameters {
    /// Small buckets go to the comparison sort. With two threads or more,
    /// large buckets are partitioned in parallel, the largest by tile
    /// recombination. What is left is partitioned in place where it is large
    /// for the number of levels to go, and sorted by counting passes where it
    /// is not.
    fn pick_strategy(&self, len: usize, remaining_levels: usize, threads: usize) -> (strategy: Strategy)
        ensures
            strategy == standard_strategy(*self, len as int, remaining_levels as int, threads as int),
    {
        if len < SMALL_BUCKET_THRESHOLD {
            Strategy::Fallback
        } else if threads >= 2 && len >= self.scanning_sort_threshold {
            if len >= self.recombinating_sort_threshold {
                Strategy::TileRecombination
            } else {
                Strategy::ParallelHistogramMsd
            }
        } else if len >= Self::ska_sort_threshold(remaining_levels) {
            Strategy::SingleThreadedMsd
        } else {
            Strategy::LsdMultiPass
        }
    }

    fn parallel_count_threshold(&self) -> (threshold: usize)
        ensures
            threshold == self.par_count_threshold,
    {
        self.par_count_threshold
    }
}

} // verus!

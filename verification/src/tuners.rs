//! The tuner that is used where the caller brings none.
use vstd::prelude::*;
use crate::tuner::{Strategy, Tuner};
use crate::tuning_parameters::{standard_strategy, TuningParameters};

verus! {

/// The standard policy with the standard thresholds.
pub struct StandardTuner {}

/// The thresholds that the standard tuner decides by.
pub open spec fn standard_thresholds() -> TuningParameters {
    TuningParameters {
        cpus: 1,
        recombinating_sort_threshold: 350_000,
        scanning_sort_threshold: 300_000,
        ska_sort_threshold: 500_000,
        par_count_threshold: 400_000,
        scanner_read_size: 32768,
    }
}

impl Tuner for StandardTuner {
    fn pick_strategy(&self, len: usize, remaining_levels: usize, threads: usize) -> (strategy: Strategy)
        ensures
            strategy == standard_strategy(
                standard_thresholds(),
                len as int,
                remaining_levels as int,
                threads as int,
            ),
    {
        let thresholds = TuningParameters {
            cpus: 1,
            recombinating_sort_threshold: TuningParameters::recombinating_sort_threshold(),
            scanning_sort_threshold: TuningParameters::scanning_sort_threshold(),
            ska_sort_threshold: TuningParameters::ska_sort_threshold(remaining_levels),
            par_count_threshold: TuningParameters::par_count_threshold(),
            scanner_read_size: 32768,
        };
        thresholds.pick_strategy(len, remaining_levels, threads)
    }

    fn parallel_count_threshold(&self) -> (threshold: usize)
        ensures
            threshold == 400_000,
    {
        TuningParameters::par_count_threshold()
    }
}

} // verus!

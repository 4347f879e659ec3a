use rdst::director::tile_size_for;
use rdst::tuner::{Strategy, Tuner};
use rdst::tuners::StandardTuner;
use rdst::tuning_parameters::{TuningParameters, BASE_READ_SIZE, SMALL_BUCKET_THRESHOLD};

#[test]
fn the_thresholds() {
    assert_eq!(TuningParameters::recombinating_sort_threshold(), 350_000);
    assert_eq!(TuningParameters::scanning_sort_threshold(), 300_000);
    assert_eq!(TuningParameters::ska_sort_threshold(1), 500_000);
    assert_eq!(TuningParameters::ska_sort_threshold(4), 500_000);
    assert_eq!(TuningParameters::ska_sort_threshold(5), 200_000);
    assert_eq!(TuningParameters::ska_sort_threshold(16), 200_000);
    assert_eq!(TuningParameters::par_count_threshold(), 400_000);
    assert_eq!(SMALL_BUCKET_THRESHOLD, 32);
}

#[test]
fn the_read_size() {
    assert_eq!(BASE_READ_SIZE, 32768);
    assert_eq!(TuningParameters::scanner_read_size(), 32768);
    assert_eq!(TuningParameters::read_size_for(0), 32768);
    assert_eq!(TuningParameters::read_size_for(1), 32768);
    assert_eq!(TuningParameters::read_size_for(2), 32768);
    assert_eq!(TuningParameters::read_size_for(64), 32768);
}

#[test]
fn the_standard_parameters() {
    let p = TuningParameters::new(4);
    assert!(p.cpus >= 1);
    assert_eq!(p.recombinating_sort_threshold, 350_000);
    assert_eq!(p.scanning_sort_threshold, 300_000);
    assert_eq!(p.ska_sort_threshold, 500_000);
    assert_eq!(p.par_count_threshold, 400_000);
    assert_eq!(p.scanner_read_size, 32768);
    assert_eq!(TuningParameters::new(8).ska_sort_threshold, 200_000);
    assert_eq!(p.parallel_count_threshold(), 400_000);
}

#[test]
fn the_standard_choice() {
    let p = TuningParameters::new(8);
    assert_eq!(p.pick_strategy(0, 8, 8), Strategy::Fallback);
    assert_eq!(p.pick_strategy(31, 8, 8), Strategy::Fallback);
    assert_eq!(p.pick_strategy(32, 8, 8), Strategy::LsdMultiPass);
    assert_eq!(p.pick_strategy(199_999, 8, 8), Strategy::LsdMultiPass);
    assert_eq!(p.pick_strategy(200_000, 8, 8), Strategy::SingleThreadedMsd);
    assert_eq!(p.pick_strategy(200_000, 4, 8), Strategy::LsdMultiPass);
    assert_eq!(p.pick_strategy(299_999, 8, 8), Strategy::SingleThreadedMsd);
    assert_eq!(p.pick_strategy(300_000, 8, 8), Strategy::ParallelHistogramMsd);
    assert_eq!(p.pick_strategy(349_999, 8, 8), Strategy::ParallelHistogramMsd);
    assert_eq!(p.pick_strategy(350_000, 8, 8), Strategy::TileRecombination);
    assert_eq!(p.pick_strategy(usize::MAX, 1, 2), Strategy::TileRecombination);
}

#[test]
fn one_thread_never_goes_parallel() {
    let p = TuningParameters::new(8);
    assert_eq!(p.pick_strategy(1_000_000, 8, 1), Strategy::SingleThreadedMsd);
    assert_eq!(p.pick_strategy(1_000_000, 8, 0), Strategy::SingleThreadedMsd);
    assert_eq!(p.pick_strategy(400_000, 2, 1), Strategy::LsdMultiPass);
    assert_eq!(p.pick_strategy(500_000, 2, 1), Strategy::SingleThreadedMsd);
}

#[test]
fn thresholds_can_be_set() {
    let p = TuningParameters {
        cpus: 4,
        recombinating_sort_threshold: 100,
        scanning_sort_threshold: 50,
        ska_sort_threshold: 0,
        par_count_threshold: 0,
        scanner_read_size: 1,
    };
    assert_eq!(p.pick_strategy(40, 8, 4), Strategy::LsdMultiPass);
    assert_eq!(p.pick_strategy(50, 8, 4), Strategy::ParallelHistogramMsd);
    assert_eq!(p.pick_strategy(100, 8, 4), Strategy::TileRecombination);
}

#[test]
fn one_tile_per_worker() {
    assert_eq!(tile_size_for(100, 4), 25);
    assert_eq!(tile_size_for(101, 4), 26);
    assert_eq!(tile_size_for(3, 8), 1);
    assert_eq!(tile_size_for(10, 0), 10);
    assert_eq!(tile_size_for(10, 1), 10);
    assert_eq!(tile_size_for(usize::MAX, 2), usize::MAX / 2 + 1);
}

#[test]
fn the_standard_tuner() {
    let tuner = StandardTuner {};
    assert_eq!(tuner.parallel_count_threshold(), 400_000);
    assert_eq!(tuner.pick_strategy(31, 8, 8), Strategy::Fallback);
    assert_eq!(tuner.pick_strategy(32, 8, 8), Strategy::LsdMultiPass);
    assert_eq!(tuner.pick_strategy(200_000, 8, 8), Strategy::SingleThreadedMsd);
    assert_eq!(tuner.pick_strategy(200_000, 4, 8), Strategy::LsdMultiPass);
    assert_eq!(tuner.pick_strategy(300_000, 4, 8), Strategy::ParallelHistogramMsd);
    assert_eq!(tuner.pick_strategy(350_000, 4, 8), Strategy::TileRecombination);
    assert_eq!(tuner.pick_strategy(350_000, 4, 1), Strategy::LsdMultiPass);
    assert_eq!(tuner.pick_strategy(500_000, 4, 1), Strategy::SingleThreadedMsd);
    let p = TuningParameters::new(4);
    for len in [0usize, 31, 32, 199_999, 200_000, 299_999, 300_000, 349_999, 350_000, 1_000_000] {
        for levels in [1usize, 4, 5, 16] {
            for threads in [0usize, 1, 2, 64] {
                assert_eq!(tuner.pick_strategy(len, levels, threads), p.pick_strategy(len, levels, threads));
            }
        }
    }
}

use rdst::director::{director, sort_bucket, sort_partitioned, sort_segments, tile_size_for};
use rdst::sorts::comparative_sort::{comparative_sort, compare_from};
use rdst::sorts::lsb_sort::lsb_sort;
use rdst::sorts::out_of_place_sort::out_of_place_sort;
use rdst::sorts::recombinating_sort::{gather_segment, recombinating_sort, sort_tile};
use rdst::sorts::scanning_sort::{scanning_sort, scanning_sort_adapter, scatter_tile, tile_column};
use rdst::sorts::ska_sort::{ska_sort, ska_sort_adapter, swap_elements};
use rdst::tuner::{Strategy, Tuner};
use rdst::tuning_parameters::TuningParameters;
use rdst::utils::{aggregate_tile_counts, get_counts, get_prefix_sums, get_tile_counts};
use std::cmp::Ordering;

fn next_random(state: &mut u64) -> u64 {
    *state = state.wrapping_add(0x9E37_79B9_7F4A_7C15);
    let mut z = *state;
    z = (z ^ (z >> 30)).wrapping_mul(0xBF58_476D_1CE4_E5B9);
    z = (z ^ (z >> 27)).wrapping_mul(0x94D0_49BB_1331_11EB);
    z ^ (z >> 31)
}

fn random_u32s(n: usize, seed: u64) -> Vec<u32> {
    let mut state = seed;
    (0..n).map(|_| next_random(&mut state) as u32).collect()
}

fn random_pairs(n: usize, seed: u64) -> Vec<[u8; 2]> {
    let mut state = seed;
    (0..n)
        .map(|i| {
            let r = next_random(&mut state);
            [(r % 5) as u8, i as u8]
        })
        .collect()
}

fn stable_by_first_byte(data: &[[u8; 2]]) -> Vec<[u8; 2]> {
    let mut expected = data.to_vec();
    expected.sort_by_key(|pair| pair[0]);
    expected
}

struct Always(Strategy);

impl Tuner for Always {
    fn pick_strategy(&self, _len: usize, _remaining_levels: usize, _threads: usize) -> Strategy {
        self.0
    }

    fn parallel_count_threshold(&self) -> usize {
        10_000
    }
}

fn directed(strategy: Strategy, n: usize, seed: u64) {
    let mut data = random_u32s(n, seed);
    let mut expected = data.clone();
    expected.sort_unstable();
    let counts = get_counts(&data, 0);
    director(&Always(strategy), &mut data, &counts, 0);
    assert_eq!(data, expected);
}

#[test]
fn director_with_the_fallback() {
    directed(Strategy::Fallback, 5_000, 1);
}

#[test]
fn director_with_the_in_place_partition() {
    directed(Strategy::SingleThreadedMsd, 60_000, 2);
}

#[test]
fn director_with_the_parallel_scatter() {
    directed(Strategy::ParallelHistogramMsd, 60_000, 3);
}

#[test]
fn director_with_tile_recombination() {
    directed(Strategy::TileRecombination, 60_000, 4);
}

#[test]
fn director_with_counting_passes() {
    directed(Strategy::LsdMultiPass, 60_000, 5);
}

#[test]
fn director_leaves_short_buckets_alone() {
    let mut one: Vec<u32> = vec![7];
    let counts = get_counts(&one, 0);
    director(&Always(Strategy::TileRecombination), &mut one, &counts, 0);
    assert_eq!(one, vec![7]);

    let mut none: Vec<u32> = vec![];
    let counts = get_counts(&none, 0);
    director(&Always(Strategy::SingleThreadedMsd), &mut none, &counts, 0);
    assert!(none.is_empty());
}

#[test]
fn director_from_a_later_level_ignores_the_earlier_bytes() {
    // Sorted by the low byte only; the high byte is left where it was.
    let mut data: Vec<u16> = (0..200u16).map(|i| ((i % 7) << 8) | (199 - i)).collect();
    let counts = get_counts(&data, 1);
    director(&Always(Strategy::SingleThreadedMsd), &mut data, &counts, 1);
    for pair in data.windows(2) {
        assert!(pair[0] & 0xff <= pair[1] & 0xff);
    }
}

#[test]
fn comparison_sort_orders_by_key() {
    let mut data: Vec<u32> = vec![5, 1, 0xFFFF_FFFF, 300, 299, 0, 65_536];
    comparative_sort(&mut data, 0);
    assert_eq!(data, vec![0, 1, 5, 299, 300, 65_536, 0xFFFF_FFFF]);
}

#[test]
fn comparison_from_a_level() {
    assert_eq!(compare_from(&0x0102u16, &0x0201u16, 0), Ordering::Less);
    assert_eq!(compare_from(&0x0102u16, &0x0201u16, 1), Ordering::Greater);
    assert_eq!(compare_from(&0x0102u16, &0x0302u16, 1), Ordering::Equal);
    assert_eq!(compare_from(&0x0102u16, &0x0302u16, 2), Ordering::Equal);
    assert_eq!(compare_from(&7u32, &7u32, 0), Ordering::Equal);
}

#[test]
fn counting_passes_sort() {
    let mut data = random_u32s(10_000, 21);
    let mut expected = data.clone();
    expected.sort_unstable();
    lsb_sort(&mut data, 0);
    assert_eq!(data, expected);
}

#[test]
fn counting_passes_from_the_last_level_are_stable() {
    let mut data: Vec<[u8; 2]> = vec![[9, 1], [3, 0], [7, 1], [1, 0], [5, 1]];
    lsb_sort(&mut data, 1);
    assert_eq!(data, vec![[3, 0], [1, 0], [9, 1], [7, 1], [5, 1]]);
}

#[test]
fn one_counting_pass_groups_by_byte() {
    let src: Vec<[u8; 2]> = vec![[2, 0], [0, 1], [2, 2], [1, 3], [0, 4], [2, 5]];
    let mut dst = src.clone();
    let counts = get_counts(&src, 0);
    out_of_place_sort(&src, &mut dst, &counts, 0);
    assert_eq!(dst, vec![[0, 1], [0, 4], [1, 3], [2, 0], [2, 2], [2, 5]]);
}

#[test]
fn in_place_partition_puts_every_byte_in_its_segment() {
    let mut data = random_u32s(20_000, 31);
    let mut elements = data.clone();
    let counts = get_counts(&data, 0);
    let sums = get_prefix_sums(&counts);
    let exchanges = ska_sort(&mut data, &counts, 0);
    assert!(exchanges <= data.len());
    for (i, x) in data.iter().enumerate() {
        let b = (*x >> 24) as usize;
        assert!(sums[b] <= i && i < sums[b] + counts[b]);
    }
    let mut after = data.clone();
    after.sort_unstable();
    elements.sort_unstable();
    assert_eq!(after, elements);
}

#[test]
fn in_place_partition_of_a_partitioned_bucket_exchanges_nothing() {
    let mut data: Vec<u8> = vec![0, 0, 1, 3, 3, 3, 200];
    let counts = get_counts(&data, 0);
    let exchanges = ska_sort(&mut data, &counts, 0);
    assert_eq!(exchanges, 0);
    assert_eq!(data, vec![0, 0, 1, 3, 3, 3, 200]);
}

#[test]
fn in_place_partition_then_segments() {
    let mut data = random_u32s(30_000, 32);
    let mut expected = data.clone();
    expected.sort_unstable();
    let counts = get_counts(&data, 0);
    ska_sort_adapter(&TuningParameters::new(4), &mut data, &counts, 0);
    assert_eq!(data, expected);
}

#[test]
fn exchange_of_two_elements() {
    let mut data = [10u8, 20, 30, 40];
    swap_elements(&mut data, 0, 3);
    assert_eq!(data, [40, 20, 30, 10]);
    swap_elements(&mut data, 1, 1);
    assert_eq!(data, [40, 20, 30, 10]);
}

#[test]
fn parallel_scatter_is_the_stable_partition() {
    for tile_size in [1usize, 3, 64, 1000, 5000] {
        let mut data = random_pairs(5_000, 41);
        let expected = stable_by_first_byte(&data);
        let tile_counts = get_tile_counts(&data, tile_size, 0);
        let counts = aggregate_tile_counts(&tile_counts);
        scanning_sort(&mut data, &counts, &tile_counts, tile_size, 0);
        assert_eq!(data, expected);
    }
}

#[test]
fn tile_recombination_is_the_stable_partition() {
    for tile_size in [1usize, 3, 64, 1000, 5000] {
        let mut data = random_pairs(5_000, 42);
        let expected = stable_by_first_byte(&data);
        let tile_counts = get_tile_counts(&data, tile_size, 0);
        let counts = aggregate_tile_counts(&tile_counts);
        recombinating_sort(&mut data, &counts, &tile_counts, tile_size, 0);
        assert_eq!(data, expected);
    }
}

#[test]
fn partitions_of_nothing() {
    let mut data: Vec<u32> = vec![];
    let tile_counts = get_tile_counts(&data, 4, 0);
    assert!(tile_counts.is_empty());
    let counts = aggregate_tile_counts(&tile_counts);
    scanning_sort(&mut data, &counts, &tile_counts, 4, 0);
    recombinating_sort(&mut data, &counts, &tile_counts, 4, 0);
    assert!(data.is_empty());
}

#[test]
fn parallel_scatter_then_segments() {
    let mut data = random_u32s(50_000, 43);
    let mut expected = data.clone();
    expected.sort_unstable();
    let tile_size = tile_size_for(data.len(), 4);
    let tile_counts = get_tile_counts(&data, tile_size, 0);
    let counts = aggregate_tile_counts(&tile_counts);
    scanning_sort_adapter(&TuningParameters::new(4), &mut data, &counts, &tile_counts, tile_size, 0);
    assert_eq!(data, expected);
}

#[test]
fn one_tile_sorted_into_the_buffer() {
    let src: Vec<[u8; 2]> = vec![[1, 0], [0, 1], [1, 2], [0, 3], [2, 4], [0, 5], [1, 6]];
    let tile_counts = get_tile_counts(&src, 3, 0);
    let mut tmp_tile = vec![[0u8; 2]; 3];
    let (counts, sums) = sort_tile(&src, &mut tmp_tile, &tile_counts, 3, 1, 0);
    assert_eq!(tmp_tile, vec![[0, 3], [0, 5], [2, 4]]);
    assert_eq!(counts, tile_counts[1]);
    assert_eq!(sums[0], 0);
    assert_eq!(sums[1], 2);
    assert_eq!(sums[2], 2);
    assert_eq!(sums[3], 3);
}

#[test]
fn one_segment_gathered_from_the_tiles() {
    // Two tiles of three elements, each sorted by its first byte.
    let tmp: Vec<[u8; 2]> = vec![[0, 1], [1, 0], [1, 2], [0, 3], [0, 5], [2, 4]];
    let first = get_counts(&tmp[0..3], 0);
    let second = get_counts(&tmp[3..6], 0);
    let locals = vec![(first, get_prefix_sums(&first)), (second, get_prefix_sums(&second))];
    let mut zeros = vec![[9u8; 2]; 3];
    gather_segment(0, &mut zeros, &tmp, &locals, 3);
    assert_eq!(zeros, vec![[0, 1], [0, 3], [0, 5]]);
    let mut ones = vec![[9u8; 2]; 2];
    gather_segment(1, &mut ones, &tmp, &locals, 3);
    assert_eq!(ones, vec![[1, 0], [1, 2]]);
}

#[test]
fn one_tile_scattered() {
    let src: Vec<u8> = vec![255, 0, 255, 1, 9, 9, 0];
    // Tile 1 of size 4 is [9, 9, 0].
    let mut zero = vec![77u8; 1];
    let mut nine = vec![77u8; 2];
    let mut rest: Vec<Vec<u8>> = (0..256).map(|_| Vec::new()).collect();
    {
        let mut dests: Vec<&mut [u8]> = Vec::new();
        for (k, spare) in rest.iter_mut().enumerate() {
            let b = 255 - k;
            if b != 0 && b != 9 {
                dests.push(&mut spare[..]);
            } else if b == 9 {
                dests.push(&mut []);
            } else {
                dests.push(&mut []);
            }
        }
        dests[255] = &mut zero[..];
        dests[255 - 9] = &mut nine[..];
        scatter_tile(&src, 1, 4, dests, 0);
    }
    assert_eq!(zero, vec![0]);
    assert_eq!(nine, vec![9, 9]);
}

#[test]
fn the_column_of_one_byte() {
    let data: Vec<u8> = vec![5, 5, 1, 5, 2, 2, 5];
    let tile_counts = get_tile_counts(&data, 3, 0);
    assert_eq!(tile_column(&tile_counts, 5), vec![2, 1, 1]);
    assert_eq!(tile_column(&tile_counts, 2), vec![0, 2, 0]);
    assert_eq!(tile_column(&tile_counts, 0), vec![0, 0, 0]);
}

#[test]
fn segments_are_sorted_each_for_itself() {
    // Three segments by the first byte; inside them the second byte is out of order.
    let mut data: Vec<[u8; 2]> = vec![[0, 9], [0, 1], [0, 5], [1, 2], [1, 1], [3, 0], [3, 8], [3, 4]];
    let counts = get_counts(&data, 0);
    let tuner = TuningParameters::new(2);
    sort_segments(&tuner, &mut data, &counts, 1, false);
    assert_eq!(data, vec![[0, 1], [0, 5], [0, 9], [1, 1], [1, 2], [3, 0], [3, 4], [3, 8]]);

    let mut again: Vec<[u8; 2]> = vec![[0, 9], [0, 1], [0, 5], [1, 2], [1, 1], [3, 0], [3, 8], [3, 4]];
    sort_segments(&tuner, &mut again, &counts, 1, true);
    assert_eq!(again, data);

    let mut third: Vec<[u8; 2]> = vec![[0, 9], [0, 1], [0, 5], [1, 2], [1, 1], [3, 0], [3, 8], [3, 4]];
    sort_partitioned(&tuner, &mut third, &counts, 0, true);
    assert_eq!(third, data);
}

#[test]
fn a_partition_at_the_last_level_is_final() {
    let mut data: Vec<u8> = vec![1, 1, 2, 7, 7];
    let counts = get_counts(&data, 0);
    sort_partitioned(&TuningParameters::new(1), &mut data, &counts, 0, false);
    assert_eq!(data, vec![1, 1, 2, 7, 7]);
}

#[test]
fn a_bucket_sorted_from_a_level() {
    let mut data = random_u32s(4_000, 51);
    let mut expected = data.clone();
    expected.sort_unstable();
    sort_bucket(&TuningParameters::new(4), &mut data, 0);
    assert_eq!(data, expected);
}

use rdst::director::director;
use rdst::sorts::comparative_sort::comparative_sort;
use rdst::tuner::{Strategy, Tuner};
use rdst::utils::get_counts;
use rdst::{radix_sort_bucket_start, radix_sort_inner, radix_sort_with_tuner, RadixSort};

fn next_random(state: &mut u64) -> u64 {
    *state = state.wrapping_add(0x9E37_79B9_7F4A_7C15);
    let mut z = *state;
    z = (z ^ (z >> 30)).wrapping_mul(0xBF58_476D_1CE4_E5B9);
    z = (z ^ (z >> 27)).wrapping_mul(0x94D0_49BB_1331_11EB);
    z ^ (z >> 31)
}

struct Always(Strategy);

impl Tuner for Always {
    fn pick_strategy(&self, _len: usize, _remaining_levels: usize, _threads: usize) -> Strategy {
        self.0
    }

    fn parallel_count_threshold(&self) -> usize {
        10_000
    }
}

#[test]
fn two_byte_keys_come_out_in_order() {
    let mut data: Vec<u16> = vec![170, 45, 75, 90, 2, 24, 802, 66];
    data.radix_sort_unstable();
    assert_eq!(data, vec![2, 24, 45, 66, 75, 90, 170, 802]);
}

#[test]
fn a_million_single_bytes() {
    let mut state = 7u64;
    let mut data: Vec<u8> = Vec::with_capacity(1_000_000);
    let mut expected_counts = [0usize; 256];
    for _ in 0..1_000_000 {
        let b = next_random(&mut state) as u8;
        expected_counts[b as usize] += 1;
        data.push(b);
    }
    data.radix_sort_unstable();
    assert_eq!(data.len(), 1_000_000);
    let mut runs = 1;
    for i in 1..data.len() {
        assert!(data[i - 1] <= data[i]);
        if data[i - 1] != data[i] {
            runs += 1;
        }
    }
    assert!(runs <= 256);
    let mut counts = [0usize; 256];
    for b in data.iter() {
        counts[*b as usize] += 1;
    }
    assert_eq!(counts, expected_counts);
}

#[test]
fn tile_recombination_agrees_with_the_comparison_sort() {
    let mut state = 2024u64;
    let data: Vec<u32> = (0..400_000).map(|_| next_random(&mut state) as u32).collect();

    let mut recombined = data.clone();
    let counts = get_counts(&recombined, 0);
    director(&Always(Strategy::TileRecombination), &mut recombined, &counts, 0);

    let mut compared = data.clone();
    comparative_sort(&mut compared, 0);

    assert_eq!(recombined, compared);
    assert_ne!(recombined, data);
}

#[test]
fn the_entry_point_sorts_a_large_vector() {
    let mut state = 99u64;
    let mut data: Vec<u64> = (0..600_000).map(|_| next_random(&mut state)).collect();
    let mut expected = data.clone();
    expected.sort_unstable();
    data.radix_sort_unstable();
    assert_eq!(data, expected);
}

#[test]
fn slices_sort_like_vectors() {
    let mut data: [u32; 6] = [9, 1_000_000, 3, 70_000, 0, 256];
    data[..].radix_sort_unstable();
    assert_eq!(data, [0, 3, 9, 256, 70_000, 1_000_000]);
}

#[test]
fn short_inputs_are_left_alone() {
    let mut empty: Vec<u32> = Vec::new();
    empty.radix_sort_unstable();
    assert!(empty.is_empty());

    let mut one: Vec<u32> = vec![42];
    one.radix_sort_unstable();
    assert_eq!(one, vec![42]);
}

#[test]
fn equal_keys_stay_equal() {
    let mut data: Vec<u64> = vec![0xABCD_EF01_2345_6789; 50_000];
    data.radix_sort_unstable();
    assert_eq!(data, vec![0xABCD_EF01_2345_6789u64; 50_000]);
}

#[test]
fn sorting_twice_changes_nothing() {
    let mut state = 5u64;
    let mut data: Vec<u32> = (0..20_000).map(|_| next_random(&mut state) as u32 % 1000).collect();
    data.radix_sort_unstable();
    let once = data.clone();
    data.radix_sort_unstable();
    assert_eq!(data, once);
}

#[test]
fn reversed_input_is_sorted() {
    let mut data: Vec<u16> = (0..5000u16).rev().collect();
    data.radix_sort_unstable();
    let expected: Vec<u16> = (0..5000u16).collect();
    assert_eq!(data, expected);
}

#[test]
fn byte_arrays_sort_lexicographically() {
    let mut data: Vec<[u8; 3]> = vec![[2, 0, 0], [1, 255, 9], [1, 0, 200], [0, 7, 7], [1, 0, 3]];
    data.radix_sort_unstable();
    assert_eq!(data, vec![[0, 7, 7], [1, 0, 3], [1, 0, 200], [1, 255, 9], [2, 0, 0]]);
}

#[test]
fn every_policy_sorts() {
    let mut state = 77u64;
    let data: Vec<u32> = (0..30_000).map(|_| next_random(&mut state) as u32).collect();
    let mut expected = data.clone();
    expected.sort_unstable();
    for strategy in [
        Strategy::Fallback,
        Strategy::SingleThreadedMsd,
        Strategy::ParallelHistogramMsd,
        Strategy::TileRecombination,
        Strategy::LsdMultiPass,
    ] {
        let mut sorted = data.clone();
        radix_sort_with_tuner(&Always(strategy), &mut sorted);
        assert_eq!(sorted, expected);
    }
}

#[test]
fn the_entry_points_agree() {
    let mut state = 78u64;
    let data: Vec<u64> = (0..5_000).map(|_| next_random(&mut state) >> 20).collect();
    let mut expected = data.clone();
    expected.sort_unstable();
    let mut a = data.clone();
    radix_sort_bucket_start(&mut a);
    assert_eq!(a, expected);
    let mut b = data.clone();
    radix_sort_inner(&mut b);
    assert_eq!(b, expected);
}

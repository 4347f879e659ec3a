use rayon::current_num_threads;
use rdst::radix_key::RadixKey;
use rdst::sorts::recombinating_sort::recombinating_sort_adapter;
use rdst::tuners::StandardTuner;
use rdst::utils::{aggregate_tile_counts, cdiv, get_tile_counts};
use std::fmt::Debug;

fn next_random(state: &mut u64) -> u64 {
    *state = state.wrapping_add(0x9E37_79B9_7F4A_7C15);
    let mut z = *state;
    z = (z ^ (z >> 30)).wrapping_mul(0xBF58_476D_1CE4_E5B9);
    z = (z ^ (z >> 27)).wrapping_mul(0x94D0_49BB_1331_11EB);
    z ^ (z >> 31)
}

fn gen_inputs<T, G>(n: usize, seed: u64, make: G) -> Vec<T>
where
    G: Fn(u64, u64) -> T,
{
    let mut state = seed;
    let mut inputs = Vec::with_capacity(n);
    for _ in 0..n {
        let hi = next_random(&mut state);
        let lo = next_random(&mut state);
        inputs.push(make(hi, lo));
    }
    inputs
}

fn validate_sort<T, F>(mut inputs: Vec<T>, sort_fn: &F)
where
    T: Ord + Clone + Debug,
    F: Fn(&mut [T]),
{
    let mut expected = inputs.clone();
    sort_fn(&mut inputs);
    expected.sort();
    assert_eq!(inputs, expected);
}

fn sort_comparison_suite<T, G, H, F>(make_full: G, make_shifted: H, sort_fn: F)
where
    T: Ord + Clone + Debug,
    G: Fn(u64, u64) -> T,
    H: Fn(u64, u64) -> T,
    F: Fn(&mut [T]),
{
    let sizes = [0usize, 1, 2, 3, 10, 31, 32, 100, 1_000, 10_000, 100_000, 400_000];
    for (i, n) in sizes.iter().enumerate() {
        validate_sort(gen_inputs(*n, 17 + i as u64, &make_full), &sort_fn);
        validate_sort(gen_inputs(*n, 91 + i as u64, &make_shifted), &sort_fn);
    }
}

fn recombinating_case<T>(inputs: &mut [T])
where
    T: RadixKey + Copy + Send + Sync,
{
    let tuner = StandardTuner {};
    let level = 0;
    let tile_size = cdiv(inputs.len(), current_num_threads());

    if inputs.len() == 0 {
        return;
    }

    let tile_counts = get_tile_counts(inputs, tile_size, level);
    let counts = aggregate_tile_counts(&tile_counts);

    recombinating_sort_adapter(&tuner, inputs, &counts, &tile_counts, tile_size, level);
}

#[test]
pub fn test_u8() {
    sort_comparison_suite(|hi, _| hi as u8, |hi, _| (hi as u8) >> 0u8, recombinating_case::<u8>);
}

#[test]
pub fn test_u16() {
    sort_comparison_suite(|hi, _| hi as u16, |hi, _| (hi as u16) >> 8u16, recombinating_case::<u16>);
}

#[test]
pub fn test_u32() {
    sort_comparison_suite(|hi, _| hi as u32, |hi, _| (hi as u32) >> 16u32, recombinating_case::<u32>);
}

#[test]
pub fn test_u64() {
    sort_comparison_suite(|hi, _| hi, |hi, _| hi >> 32u64, recombinating_case::<u64>);
}

#[test]
pub fn test_u128() {
    sort_comparison_suite(
        |hi, lo| ((hi as u128) << 64) | lo as u128,
        |hi, lo| (((hi as u128) << 64) | lo as u128) >> 64u128,
        recombinating_case::<u128>,
    );
}

#[test]
pub fn test_usize() {
    sort_comparison_suite(|hi, _| hi as usize, |hi, _| (hi as usize) >> 32usize, recombinating_case::<usize>);
}

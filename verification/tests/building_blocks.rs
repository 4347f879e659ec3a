use rdst::radix_key::RadixKey;
use rdst::radix_key_impl::{get_byte, get_shift};
use rdst::tiles::{split_tiles, tile_lengths};
use rdst::utils::{
    aggregate_tile_counts, cdiv, copy_into, get_counts, get_prefix_sums, get_tile_counts,
    get_tmp_bucket, par_get_counts,
};

fn next_random(state: &mut u64) -> u64 {
    *state = state.wrapping_add(0x9E37_79B9_7F4A_7C15);
    let mut z = *state;
    z = (z ^ (z >> 30)).wrapping_mul(0xBF58_476D_1CE4_E5B9);
    z = (z ^ (z >> 27)).wrapping_mul(0x94D0_49BB_1331_11EB);
    z ^ (z >> 31)
}

#[test]
fn ceiling_division() {
    assert_eq!(cdiv(0, 5), 0);
    assert_eq!(cdiv(1, 5), 1);
    assert_eq!(cdiv(5, 5), 1);
    assert_eq!(cdiv(6, 5), 2);
    assert_eq!(cdiv(10, 3), 4);
    assert_eq!(cdiv(usize::MAX, 1), usize::MAX);
    assert_eq!(cdiv(usize::MAX, usize::MAX), 1);
}

#[test]
fn histogram_of_a_level() {
    let data: Vec<u16> = vec![0x0100, 0x0101, 0x02FF, 0x0100, 0xFF00];
    let high = get_counts(&data, 0);
    assert_eq!(high[1], 3);
    assert_eq!(high[2], 1);
    assert_eq!(high[255], 1);
    assert_eq!(high[0], 0);
    assert_eq!(high.iter().sum::<usize>(), 5);
    let low = get_counts(&data, 1);
    assert_eq!(low[0], 3);
    assert_eq!(low[1], 1);
    assert_eq!(low[255], 1);
    assert_eq!(low.iter().sum::<usize>(), 5);
}

#[test]
fn histogram_of_nothing() {
    let data: Vec<u32> = vec![];
    assert_eq!(get_counts(&data, 0), [0usize; 256]);
}

#[test]
fn running_offsets() {
    let mut counts = [0usize; 256];
    counts[0] = 3;
    counts[1] = 0;
    counts[2] = 4;
    counts[255] = 1;
    let sums = get_prefix_sums(&counts);
    assert_eq!(sums[0], 0);
    assert_eq!(sums[1], 3);
    assert_eq!(sums[2], 3);
    assert_eq!(sums[3], 7);
    assert_eq!(sums[255], 7);
}

#[test]
fn tiles_add_up_to_the_whole() {
    let mut state = 3u64;
    let data: Vec<u32> = (0..10_007).map(|_| next_random(&mut state) as u32).collect();
    for level in 0..4 {
        let whole = get_counts(&data, level);
        for tile_size in [1usize, 7, 1000, 10_007, 20_000] {
            let tile_counts = get_tile_counts(&data, tile_size, level);
            assert_eq!(tile_counts.len(), cdiv(data.len(), tile_size));
            for (t, counts) in tile_counts.iter().enumerate() {
                let start = t * tile_size;
                let end = usize::min(start + tile_size, data.len());
                assert_eq!(counts.iter().sum::<usize>(), end - start);
                assert_eq!(*counts, get_counts(&data[start..end], level));
            }
            assert_eq!(aggregate_tile_counts(&tile_counts), whole);
        }
    }
}

#[test]
fn no_tiles_add_up_to_nothing() {
    let none: Vec<[usize; 256]> = vec![];
    assert_eq!(aggregate_tile_counts(&none), [0usize; 256]);
}

#[test]
fn parallel_count_is_the_count() {
    let mut state = 8u64;
    let data: Vec<u64> = (0..50_000).map(|_| next_random(&mut state)).collect();
    for level in [0usize, 3, 7] {
        let expected = get_counts(&data, level);
        assert_eq!(par_get_counts(&data, level, 0), expected);
        assert_eq!(par_get_counts(&data, level, 1_000), expected);
        assert_eq!(par_get_counts(&data, level, 400_000), expected);
    }
    let nothing: Vec<u64> = vec![];
    assert_eq!(par_get_counts(&nothing, 0, 0), [0usize; 256]);
}

#[test]
fn lengths_of_the_tiles() {
    assert_eq!(tile_lengths(10, 3), vec![3, 3, 3, 1]);
    assert_eq!(tile_lengths(9, 3), vec![3, 3, 3]);
    assert_eq!(tile_lengths(2, 5), vec![2]);
    assert_eq!(tile_lengths(0, 5), Vec::<usize>::new());
    assert_eq!(tile_lengths(usize::MAX, usize::MAX), vec![usize::MAX]);
}

#[test]
fn the_tiles_themselves() {
    let data: Vec<u8> = vec![1, 2, 3, 4, 5, 6, 7];
    let tiles = split_tiles(&data, 3);
    assert_eq!(tiles.len(), 3);
    assert_eq!(tiles[0], &[1, 2, 3]);
    assert_eq!(tiles[1], &[4, 5, 6]);
    assert_eq!(tiles[2], &[7]);
    let none: Vec<u8> = vec![];
    assert!(split_tiles(&none, 3).is_empty());
}

#[test]
fn temporary_buffer_has_the_size_of_the_bucket() {
    let data: Vec<u16> = vec![4, 5, 6];
    let tmp = get_tmp_bucket(&data);
    assert_eq!(tmp.len(), 3);
    assert_eq!(tmp, data);
}

#[test]
fn copy_into_the_middle() {
    let mut dst = [0u8, 1, 2, 3, 4, 5];
    copy_into(&mut dst, 2, &[9, 8, 7]);
    assert_eq!(dst, [0, 1, 9, 8, 7, 5]);
    copy_into(&mut dst, 6, &[]);
    assert_eq!(dst, [0, 1, 9, 8, 7, 5]);
    copy_into(&mut dst, 0, &[6, 6, 6, 6, 6, 6]);
    assert_eq!(dst, [6; 6]);
}

#[test]
fn key_bytes_of_the_integers() {
    assert_eq!(u8::LEVELS, 1);
    assert_eq!(0xABu8.get_level(0), 0xAB);

    assert_eq!(u16::LEVELS, 2);
    assert_eq!(0x1234u16.get_level(0), 0x12);
    assert_eq!(0x1234u16.get_level(1), 0x34);

    assert_eq!(u32::LEVELS, 4);
    let x = 0x1234_5678u32;
    assert_eq!([x.get_level(0), x.get_level(1), x.get_level(2), x.get_level(3)], [0x12, 0x34, 0x56, 0x78]);

    assert_eq!(u64::LEVELS, 8);
    let y = 0x0102_0304_0506_0708u64;
    for level in 0..8 {
        assert_eq!(y.get_level(level), level as u8 + 1);
    }

    assert_eq!(u128::LEVELS, 16);
    let z = 0x0102_0304_0506_0708_090A_0B0C_0D0E_0F10u128;
    for level in 0..16 {
        assert_eq!(z.get_level(level), level as u8 + 1);
    }

    assert_eq!(usize::LEVELS, 8);
    let w = 0x0A0B_0C0Dusize;
    assert_eq!(w.get_level(3), 0);
    assert_eq!(w.get_level(4), 0x0A);
    assert_eq!(w.get_level(7), 0x0D);
}

#[test]
fn key_bytes_of_an_array() {
    assert_eq!(<[u8; 3]>::LEVELS, 3);
    let a = [7u8, 8, 9];
    assert_eq!(a.get_level(0), 7);
    assert_eq!(a.get_level(2), 9);
}

#[test]
fn bytes_and_shifts() {
    assert_eq!(get_shift(4, 0), 24);
    assert_eq!(get_shift(4, 3), 0);
    assert_eq!(get_shift(16, 0), 120);
    assert_eq!(get_byte(0xAABB_CCDD, 8), 0xCC);
    assert_eq!(get_byte(u128::MAX, 120), 0xFF);
    assert_eq!(get_byte(1u128 << 127, 120), 0x80);
}

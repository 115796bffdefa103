use fivewords::charset::LowerAsciiCharset;
use fivewords::filter_vec::filter_vec_avx2::{
    compact, compute_filter_bitset, filter_vec_avx2, filter_vec_avx2_aux, lane_mapping,
};
use fivewords::filter_vec::{filter_vec, filter_vec_scalar};

fn charsets(masks: &[u32]) -> Vec<LowerAsciiCharset> {
    masks.iter().map(|m| LowerAsciiCharset::from_bits(*m)).collect()
}

fn masks(charsets: &[LowerAsciiCharset]) -> Vec<u32> {
    charsets.iter().map(|c| c.bits_value()).collect()
}

fn reference(input: &[u32], exclusion: u32, floor: u32) -> Vec<u32> {
    input.iter().copied().filter(|c| c & exclusion == 0 && *c > floor).collect()
}

fn sample(len: usize, seed: u32) -> Vec<u32> {
    let mut state = seed;
    let mut out = Vec::new();
    for _ in 0..len {
        state = state.wrapping_mul(1664525).wrapping_add(1013904223);
        out.push((state >> 7) & 0x03ff_ffff);
    }
    out
}

#[test]
fn kernel_keeps_disjoint_candidates_above_the_floor() {
    let input = charsets(&[0b0001, 0b0110, 0b1000, 0b1100, 0b0100, 0b1010]);
    let exclusion = LowerAsciiCharset::from_bits(0b0001);
    let floor = LowerAsciiCharset::from_bits(0b0100);
    let expected = vec![0b0110, 0b1000, 0b1100, 0b1010];
    assert_eq!(masks(&filter_vec_scalar(&input, exclusion, floor)), expected);
    assert_eq!(masks(&filter_vec_avx2(&input, exclusion, floor)), expected);
    assert_eq!(masks(&filter_vec(&input, exclusion, floor, false)), expected);
    assert_eq!(masks(&filter_vec(&input, exclusion, floor, true)), expected);
}

#[test]
fn kernel_floor_is_strict() {
    let input = charsets(&[4, 5, 6]);
    let none = LowerAsciiCharset::default();
    let floor = LowerAsciiCharset::from_bits(5);
    assert_eq!(masks(&filter_vec_scalar(&input, none, floor)), vec![6]);
    assert_eq!(masks(&filter_vec_avx2(&input, none, floor)), vec![6]);
}

#[test]
fn kernel_on_empty_input() {
    let e = LowerAsciiCharset::from_bits(3);
    let f = LowerAsciiCharset::default();
    assert!(filter_vec_scalar(&[], e, f).is_empty());
    assert!(filter_vec_avx2(&[], e, f).is_empty());
    assert!(filter_vec(&[], e, f, true).is_empty());
}

#[test]
fn kernel_excludes_all() {
    let input = charsets(&sample(37, 11).iter().map(|m| m | 1).collect::<Vec<u32>>());
    let e = LowerAsciiCharset::from_bits(1);
    let f = LowerAsciiCharset::default();
    assert!(filter_vec_scalar(&input, e, f).is_empty());
    assert!(filter_vec_avx2(&input, e, f).is_empty());
    let top = LowerAsciiCharset::from_bits(u32::MAX);
    assert!(filter_vec_avx2(&input, LowerAsciiCharset::default(), top).is_empty());
}

#[test]
fn kernel_keeps_all() {
    let raw: Vec<u32> = sample(41, 5).iter().map(|m| (m | 2) & !1).collect();
    let input = charsets(&raw);
    let e = LowerAsciiCharset::from_bits(1);
    let f = LowerAsciiCharset::default();
    assert_eq!(masks(&filter_vec_scalar(&input, e, f)), raw);
    assert_eq!(masks(&filter_vec_avx2(&input, e, f)), raw);
}

#[test]
fn kernels_agree_on_every_length() {
    for len in 0..40 {
        for seed in 1..6u32 {
            let raw = sample(len, seed * 97 + len as u32);
            let input = charsets(&raw);
            for (exclusion, floor) in [
                (0u32, 0u32),
                (0b1011, 0),
                (0x0000_ffff, 0x0100_0000),
                (0x0200_0001, 0x0080_0000),
                (u32::MAX, 0),
                (0, u32::MAX),
            ] {
                let e = LowerAsciiCharset::from_bits(exclusion);
                let f = LowerAsciiCharset::from_bits(floor);
                let scalar = filter_vec_scalar(&input, e, f);
                let lanes = filter_vec_avx2(&input, e, f);
                assert_eq!(scalar, lanes);
                assert_eq!(masks(&scalar), reference(&raw, exclusion, floor));
                assert_eq!(filter_vec(&input, e, f, true), filter_vec(&input, e, f, false));
            }
        }
    }
}

#[test]
fn kernel_compares_masks_without_sign() {
    let input = charsets(&[1 << 31, 1, (1 << 31) | 2]);
    let none = LowerAsciiCharset::default();
    let floor = LowerAsciiCharset::from_bits(1);
    let expected = vec![1 << 31, (1 << 31) | 2];
    assert_eq!(masks(&filter_vec_scalar(&input, none, floor)), expected);
    let eight = charsets(&[1 << 31, 1, (1 << 31) | 2, 0, 2, 1, 1, 1]);
    assert_eq!(
        masks(&filter_vec_avx2(&eight, none, floor)),
        vec![1 << 31, (1 << 31) | 2, 2]
    );
}

#[test]
fn refiltering_changes_nothing() {
    for seed in 1..8u32 {
        let input = charsets(&sample(29, seed));
        let e = LowerAsciiCharset::from_bits(0x0000_0f0f);
        let f = LowerAsciiCharset::from_bits(0x0004_0000);
        let once = filter_vec_avx2(&input, e, f);
        let twice = filter_vec_avx2(&once, e, f);
        assert_eq!(once, twice);
        assert_eq!(filter_vec_scalar(&once, e, f), once);
    }
}

#[test]
fn keep_mask_has_one_bit_per_kept_lane() {
    let lanes_raw = [0b0110u32, 0b0001, 0b1000, 0b0100, 0b0011, 0b1100, 0b10000, 0b0101];
    let lanes_vec = charsets(&lanes_raw);
    let mut lanes = [LowerAsciiCharset::default(); 8];
    lanes.copy_from_slice(&lanes_vec);
    let e = LowerAsciiCharset::from_bits(0b0001);
    let f = LowerAsciiCharset::from_bits(0b0100);
    // kept: lanes 0 (6), 2 (8), 5 (12), 6 (16)
    assert_eq!(compute_filter_bitset(&lanes, e, f), 0b0110_0101);
    let all = compute_filter_bitset(&lanes, LowerAsciiCharset::default(), LowerAsciiCharset::default());
    assert_eq!(all, 0xff);
    let none = compute_filter_bitset(&lanes, LowerAsciiCharset::from_bits(u32::MAX), f);
    assert_eq!(none, 0);
}

#[test]
fn lane_mapping_lists_kept_lanes_first() {
    assert_eq!(lane_mapping(0), ([0, 0, 0, 0, 0, 0, 0, 0], 0));
    assert_eq!(lane_mapping(0b0000_0001), ([0, 0, 0, 0, 0, 0, 0, 0], 1));
    assert_eq!(lane_mapping(0b0000_0010), ([1, 0, 0, 0, 0, 0, 0, 0], 1));
    assert_eq!(lane_mapping(0b0000_0110), ([1, 2, 0, 0, 0, 0, 0, 0], 2));
    assert_eq!(lane_mapping(0b1010_0101), ([0, 2, 5, 7, 0, 0, 0, 0], 4));
    assert_eq!(lane_mapping(0xff), ([0, 1, 2, 3, 4, 5, 6, 7], 8));
    for mask in 0..=255u8 {
        let (lanes, count) = lane_mapping(mask);
        assert_eq!(count as u32, mask.count_ones());
        let mut expected = Vec::new();
        for lane in 0..8u8 {
            if mask & (1 << lane) != 0 {
                expected.push(lane);
            }
        }
        assert_eq!(&lanes[..count], &expected[..]);
    }
}

#[test]
fn compact_gathers_kept_lanes() {
    let lanes_vec = charsets(&[10, 11, 12, 13, 14, 15, 16, 17]);
    let mut lanes = [LowerAsciiCharset::default(); 8];
    lanes.copy_from_slice(&lanes_vec);
    let (packed, count) = compact(&lanes, 0b1001_0010);
    assert_eq!(count, 3);
    assert_eq!(masks(&packed[..count]), vec![11, 14, 17]);
    let (same, eight) = compact(&lanes, 0xff);
    assert_eq!(eight, 8);
    assert_eq!(same, lanes);
    let (_, zero) = compact(&lanes, 0);
    assert_eq!(zero, 0);
}

#[test]
fn block_pass_packs_whole_blocks_only() {
    let raw = sample(19, 3);
    let input = charsets(&raw);
    let e = LowerAsciiCharset::from_bits(0b11);
    let f = LowerAsciiCharset::default();
    let mark = LowerAsciiCharset::from_bits(0xdead_beef);
    let mut output = vec![mark; input.len() + 2];
    let len = filter_vec_avx2_aux(&input, e, f, &mut output, 2);
    assert_eq!(output.len(), input.len() + 2);
    assert_eq!(masks(&output[..len]), reference(&raw[..16], 0b11, 0));
    assert_eq!(&output[16..], &vec![mark; 5][..]);
    let mut scratch = vec![LowerAsciiCharset::default(); input.len()];
    assert_eq!(filter_vec_avx2_aux(&input, e, f, &mut scratch, 0), 0);
}

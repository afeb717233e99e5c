use bit_vec::BitVec;
use bitweaving::bitgroup::index_builder::fill_bit_group;
use bitweaving::bitgroup::scanner;
use bitweaving::bitgroup::BitGroup;
use bitweaving::naivescan::naive_scanner;
use bitweaving::scanner::scanBetween;
use bitweaving::{simd_scanner, simd_scanner2, simd_scanner_256};

fn column(n: usize, seed: u32) -> Vec<u32> {
    let mut x: u32 = seed;
    let mut out = Vec::new();
    for _ in 0..n {
        x = x.wrapping_mul(1664525).wrapping_add(1013904223);
        out.push((x >> 8) % 100);
    }
    out
}

fn laid_out_index(values: &[u32]) -> BitGroup {
    let mut bg = BitGroup::new(0, 0, 0, 0, Vec::new(), Vec::new().into_boxed_slice());
    fill_bit_group(&mut bg, values);
    let flat: Vec<u32> = bg.bit_groups.concat();
    BitGroup::new(bg.k, bg.b, bg.w, bg.segment_size, bg.bit_groups, flat.into_boxed_slice())
}

fn word_of(bv: &BitVec, start: usize) -> u32 {
    let mut w = 0u32;
    for i in 0..32 {
        if bv[start + i] {
            w |= 1 << (31 - i);
        }
    }
    w
}

#[test]
fn four_lane_scan_matches_segment_scan() {
    let values = column(32 * 8, 7);
    let expected = scanner::scan_between(laid_out_index(&values), 32 * 8, 20, 70);
    let bv = simd_scanner2::scan_between(laid_out_index(&values), 20, 70);
    assert_eq!(bv.len(), 32 * 8);
    for s in 0..8 {
        assert_eq!(word_of(&bv, 32 * s), expected[s]);
    }
}

#[test]
fn four_lane_scan_marks_nothing_in_partial_block() {
    let values = column(32 * 6, 11);
    let expected = scanner::scan_between(laid_out_index(&values), 32 * 6, 10, 90);
    let bv = simd_scanner2::scan_between(laid_out_index(&values), 10, 90);
    assert_eq!(bv.len(), 32 * 8);
    for s in 0..4 {
        assert_eq!(word_of(&bv, 32 * s), expected[s]);
    }
    for s in 4..8 {
        assert_eq!(word_of(&bv, 32 * s), 0);
    }
}

#[test]
fn packed_lane_scan_repeats_third_lane() {
    let values = column(32 * 4, 3);
    let expected = scanner::scan_between(laid_out_index(&values), 32 * 4, 25, 75);
    let bv = simd_scanner::scan_between(laid_out_index(&values), 25, 75);
    assert_eq!(bv.len(), 128);
    assert_eq!(word_of(&bv, 0), expected[0]);
    assert_eq!(word_of(&bv, 32), expected[1]);
    assert_eq!(word_of(&bv, 64), expected[2]);
    assert_eq!(word_of(&bv, 96), expected[2]);
}

#[test]
fn eight_lane_scan_matches_segment_scan() {
    let values = column(32 * 16, 5);
    let bg = laid_out_index(&values);
    let expected = scanner::scan_between(laid_out_index(&values), 32 * 16, 30, 60);
    let result = simd_scanner_256::scan_between(&bg, 30, 60);
    assert_eq!(result.len(), 16);
    assert_eq!(&result[..], &expected[..]);
}

#[test]
fn eight_lane_scan_agrees_with_plain_scan() {
    let values = column(32 * 8, 19);
    let bg = laid_out_index(&values);
    let result = simd_scanner_256::scan_between(&bg, 40, 41);
    let plain = naive_scanner::scan_between(&values, 40, 41);
    for s in 0..8 {
        for p in 0..32 {
            assert_eq!((result[s] >> p) & 1 == 1, plain[32 * s + 31 - p]);
        }
    }
}

#[test]
fn sketch_scan_marks_nothing() {
    let bv = scanBetween(2, 10);
    assert_eq!(bv.len(), 128);
    assert!(bv.iter().all(|b| !b));
}

#[test]
fn eight_lane_scan_stops_when_second_half_is_decided() {
    // segments 0..4 still equal both constants in their top bits while
    // segments 4..8 already differ: the block stops after the first bit
    // group and the first four lanes mark nothing
    let mut values = vec![7u32; 128];
    values.extend(vec![0xF000_0000u32; 128]);
    let bg = laid_out_index(&values);
    let result = simd_scanner_256::scan_between(&bg, 5, 10);
    assert_eq!(&result[..], &[0u32; 8]);
    let expected = scanner::scan_between(laid_out_index(&values), 256, 5, 10);
    assert_eq!(&expected[..], &[!0, !0, !0, !0, 0, 0, 0, 0]);
}

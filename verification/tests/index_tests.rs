use bit_vec::BitVec;
use bitweaving::bitgroup::index_builder::{fill_bit_group, process_segment};
use bitweaving::bitgroup::scanner::scan_between;
use bitweaving::bitgroup::BitGroup;
use bitweaving::codec::{decode_index, encode_index, push_usize, read_field, DecodeError};
use bitweaving::compare::constant_masks;
use bitweaving::naivescan::naive_scanner;

fn empty_index() -> BitGroup {
    BitGroup::new(0, 0, 0, 0, Vec::new(), Vec::new().into_boxed_slice())
}

// bit slice of bit `i` over the segment: bit 31 - j is bit i of value j
fn slice_of(segment: &[u32], i: u32) -> u32 {
    let mut w = 0u32;
    for (j, v) in segment.iter().enumerate() {
        if (v >> i) & 1 == 1 {
            w |= 1 << (31 - j);
        }
    }
    w
}

fn sample_column(n: usize) -> Vec<u32> {
    let mut x: u32 = 12345;
    let mut out = Vec::new();
    for _ in 0..n {
        x = x.wrapping_mul(1103515245).wrapping_add(12345);
        out.push(x % 64);
    }
    out
}

fn index_of(values: &[u32]) -> BitGroup {
    let mut bg = empty_index();
    fill_bit_group(&mut bg, values);
    let bytes = bg.to_bytes();
    match BitGroup::from_bytes(&bytes) {
        Ok(read) => read,
        Err(_) => panic!("stored index did not read back"),
    }
}

#[test]
fn process_segment_transposes_bits() {
    let segment: Vec<u32> = (0..32).map(|j| j as u32 * 0x0101_0101).collect();
    let mut groups: Vec<Vec<u32>> = Vec::new();
    process_segment(&segment, &mut groups);
    assert_eq!(groups.len(), 8);
    for g in 0..8 {
        assert_eq!(groups[g].len(), 4);
        for t in 0..4 {
            assert_eq!(groups[g][t], slice_of(&segment, (31 - (4 * g + t)) as u32));
        }
    }
}

#[test]
fn process_segment_single_value_lands_in_top_bit() {
    let mut segment = vec![0u32; 32];
    segment[0] = 1;
    let mut groups: Vec<Vec<u32>> = Vec::new();
    process_segment(&segment, &mut groups);
    // bit 0 of value 0 is the last word of the last group, in its top bit
    assert_eq!(groups[7][3], 0x8000_0000);
    for g in 0..8 {
        for t in 0..4 {
            if !(g == 7 && t == 3) {
                assert_eq!(groups[g][t], 0);
            }
        }
    }
}

#[test]
fn process_segment_appends_after_existing_words() {
    let segment = vec![0xFFFF_FFFFu32; 32];
    let mut groups: Vec<Vec<u32>> = vec![vec![7], vec![], vec![1, 2]];
    process_segment(&segment, &mut groups);
    assert_eq!(groups.len(), 8);
    assert_eq!(groups[0], vec![7, !0, !0, !0, !0]);
    assert_eq!(groups[1], vec![!0, !0, !0, !0]);
    assert_eq!(groups[2], vec![1, 2, !0, !0, !0, !0]);
    assert_eq!(groups[7], vec![!0, !0, !0, !0]);
}

#[test]
fn fill_bit_group_sets_parameters_and_skips_partial_segment() {
    let values = sample_column(70);
    let mut bg = BitGroup::new(1, 2, 3, 4, Vec::new(), vec![9u32, 9].into_boxed_slice());
    fill_bit_group(&mut bg, &values);
    assert_eq!((bg.k, bg.b, bg.w, bg.segment_size), (32, 4, 32, 2));
    assert_eq!(bg.bit_groups.len(), 8);
    for g in 0..8 {
        assert_eq!(bg.bit_groups[g].len(), 8);
        for s in 0..2 {
            for t in 0..4 {
                assert_eq!(bg.bit_groups[g][4 * s + t], slice_of(&values[32 * s..32 * s + 32], (31 - (4 * g + t)) as u32));
            }
        }
    }
    assert_eq!(&bg.bit_group_box[..], &[9, 9]);
}

#[test]
fn scan_marks_values_between_constants() {
    let values: Vec<u32> = (0..32).collect();
    let bg = index_of(&values);
    let result = scan_between(bg, 32, 2, 10);
    assert_eq!(result.len(), 1);
    // value j is lane 31 - j: values 3..=9 are in range
    let mut expected = 0u32;
    for j in 3..10 {
        expected |= 1 << (31 - j);
    }
    assert_eq!(result[0], expected);
}

#[test]
fn scan_agrees_with_plain_scan() {
    let values = sample_column(32 * 6);
    for &(c1, c2) in &[(2u32, 10u32), (0, 63), (30, 40), (63, 0), (5, 6), (10, 60)] {
        let bg = index_of(&values);
        let result = scan_between(bg, 32 * 8, c1, c2);
        assert_eq!(result.len(), 8);
        let plain: BitVec = naive_scanner::scan_between(&values, c1, c2);
        for s in 0..6 {
            for p in 0..32 {
                let lane = (result[s] >> p) & 1 == 1;
                assert_eq!(lane, plain[32 * s + 31 - p]);
            }
        }
        assert_eq!(result[6], 0);
        assert_eq!(result[7], 0);
    }
}

#[test]
fn scan_with_all_lanes_decided_early() {
    // every value is far above c1 and above c2 in the top bits: the
    // comparison can stop after the first bit group
    let values = vec![0xF000_0000u32; 32];
    let bg = index_of(&values);
    let result = scan_between(bg, 32, 1, 2);
    assert_eq!(result[0], 0);
    let values = vec![0x0000_0005u32; 32];
    let bg = index_of(&values);
    let result = scan_between(bg, 32, 1, 0x1000_0000);
    assert_eq!(result[0], !0);
}

#[test]
fn scan_of_empty_index_gives_zero_words() {
    let bg = BitGroup::new(32, 4, 32, 0, Vec::new(), Vec::new().into_boxed_slice());
    let result = scan_between(bg, 100, 1, 5);
    assert_eq!(&result[..], &[0, 0, 0]);
}

#[test]
fn scan_compares_only_whole_groups() {
    // k = 6 and b = 4: one whole group, the top 4 of the 6 bits compared
    let values: Vec<u32> = (0..32).map(|j| j as u32 * 2).collect();
    // build the 6-bit slices by hand: group 0 holds bits 5, 4, 3, 2
    let words: Vec<u32> = (0..4).map(|t| slice_of(&values, 5 - t)).collect();
    let bg = BitGroup::new(6, 4, 32, 1, vec![words.clone()], words.into_boxed_slice());
    let result = scan_between(bg, 32, 3, 20);
    // top 4 of 6 bits: v >> 2 compared with 3 >> 2 = 0 and 20 >> 2 = 5
    for j in 0..32u32 {
        let v = (j * 2) >> 2;
        let lane = (result[0] >> (31 - j)) & 1 == 1;
        assert_eq!(lane, 0 < v && v < 5);
    }
}

#[test]
fn constant_masks_broadcast_bits_most_significant_first() {
    let m = constant_masks(0b101, 3);
    assert_eq!(m.len(), 32);
    assert_eq!(&m[..4], &[!0, 0, !0, 0]);
    assert!(m[3..].iter().all(|&w| w == 0));
}

#[test]
fn stored_index_has_expected_bytes() {
    let bg = BitGroup::new(32, 4, 32, 1, vec![vec![0x0102_0304], vec![5, 6]], Vec::new().into_boxed_slice());
    let bytes = bg.to_bytes();
    let mut expected: Vec<u8> = Vec::new();
    for h in [32u64, 4, 32, 1] {
        expected.extend_from_slice(&h.to_be_bytes());
    }
    expected.extend_from_slice(&1u64.to_be_bytes());
    expected.extend_from_slice(&[1, 2, 3, 4]);
    expected.extend_from_slice(&2u64.to_be_bytes());
    expected.extend_from_slice(&[0, 0, 0, 5, 0, 0, 0, 6]);
    assert_eq!(bytes, expected);
}

#[test]
fn stored_index_reads_back() {
    let values = sample_column(96);
    let mut bg = empty_index();
    fill_bit_group(&mut bg, &values);
    let groups = bg.bit_groups.clone();
    let read = match BitGroup::from_bytes(&bg.to_bytes()) {
        Ok(r) => r,
        Err(_) => panic!("did not read back"),
    };
    assert_eq!((read.k, read.b, read.w, read.segment_size), (32, 4, 32, 3));
    assert_eq!(read.bit_groups, groups);
    let flat: Vec<u32> = groups.concat();
    assert_eq!(&read.bit_group_box[..], &flat[..]);
}

#[test]
fn empty_data_reads_as_empty_index() {
    let read = match BitGroup::from_bytes(&[]) {
        Ok(r) => r,
        Err(_) => panic!("empty data is an empty index"),
    };
    assert_eq!((read.k, read.b, read.w, read.segment_size), (0, 0, 0, 0));
    assert!(read.bit_groups.is_empty());
    assert_eq!(read.bit_group_box.len(), 0);
}

#[test]
fn short_header_field_reads_with_zero_padding() {
    let read = match BitGroup::from_bytes(&[0, 0, 0, 0, 0, 0, 0, 32, 1]) {
        Ok(r) => r,
        Err(_) => panic!("a short header is padded"),
    };
    assert_eq!(read.k, 32);
    assert_eq!(read.b, 1usize << 56);
    assert_eq!(read.w, 0);
}

#[test]
fn zero_word_count_ends_the_groups() {
    let mut bytes = vec![0u8; 32];
    bytes.extend_from_slice(&1u64.to_be_bytes());
    bytes.extend_from_slice(&[0, 0, 0, 9]);
    bytes.extend_from_slice(&0u64.to_be_bytes());
    bytes.extend_from_slice(&1u64.to_be_bytes());
    bytes.extend_from_slice(&[0, 0, 0, 8]);
    let read = match BitGroup::from_bytes(&bytes) {
        Ok(r) => r,
        Err(_) => panic!("reads"),
    };
    assert_eq!(read.bit_groups, vec![vec![9]]);
}

#[test]
fn cut_off_group_is_an_error() {
    let mut bytes = vec![0u8; 32];
    bytes.extend_from_slice(&2u64.to_be_bytes());
    bytes.extend_from_slice(&[0, 0, 0, 9, 0, 0]);
    assert!(matches!(BitGroup::from_bytes(&bytes), Err(DecodeError::Truncated)));
}

#[test]
fn three_field_header_roundtrip() {
    let groups = vec![vec![1u32, 2, 3], vec![0xFFFF_FFFF]];
    let bytes = encode_index(&[8, 2, 5], &groups);
    match decode_index(&bytes, 3) {
        Ok((h, g, flat)) => {
            assert_eq!(h, vec![8, 2, 5]);
            assert_eq!(g, groups);
            assert_eq!(flat, vec![1, 2, 3, 0xFFFF_FFFF]);
        }
        Err(_) => panic!("reads back"),
    }
}

#[test]
fn plain_scan_marks_each_value() {
    let bv = naive_scanner::scan_between(&[1, 5, 10, 3, 2, 9], 2, 10);
    let marks: Vec<bool> = bv.iter().collect();
    assert_eq!(marks, vec![false, true, false, true, false, true]);
}

#[test]
fn empty_bit_group_ends_reading_early() {
    // a zero word count ends the list of groups, so an empty group and
    // everything after it do not read back
    let bg = BitGroup::new(32, 4, 32, 1, vec![vec![], vec![5]], Vec::new().into_boxed_slice());
    let read = match BitGroup::from_bytes(&bg.to_bytes()) {
        Ok(r) => r,
        Err(_) => panic!("reads"),
    };
    assert!(read.bit_groups.is_empty());
    assert_eq!((read.k, read.b, read.w, read.segment_size), (32, 4, 32, 1));
}

#[test]
fn scan_of_intersected_range_is_and_of_scans() {
    let values = sample_column(32 * 3);
    for &(c1, c2, c3, c4) in &[(2u32, 40u32, 10u32, 60u32), (0, 63, 20, 30), (5, 50, 50, 60)] {
        let r1 = scan_between(index_of(&values), 32 * 3, c1, c2);
        let r2 = scan_between(index_of(&values), 32 * 3, c3, c4);
        let r3 = scan_between(index_of(&values), 32 * 3, c1.max(c3), c2.min(c4));
        for s in 0..3 {
            assert_eq!(r3[s], r1[s] & r2[s]);
        }
    }
}

#[test]
fn field_reads_back_after_other_bytes() {
    let mut out = vec![1u8, 2, 3];
    push_usize(&mut out, 0x0102_0304_0506_0708);
    out.push(9);
    assert_eq!(&out[3..11], &[1, 2, 3, 4, 5, 6, 7, 8]);
    assert_eq!(read_field(&out, 3), (0x0102_0304_0506_0708u64, 11));
}

#[test]
fn field_cut_short_reads_missing_bytes_as_zero() {
    let bytes = [0u8, 0, 0, 0, 0, 0, 1];
    assert_eq!(read_field(&bytes, 0), (0x100u64, 7));
    assert_eq!(read_field(&bytes, 7), (0u64, 7));
}

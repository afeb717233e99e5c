use bitweaving::column_store::{column_stores, route_fields, split_fields, trim_field};
use bitweaving::index_builder::{create_byte_code_from_array, process_segment};
use bitweaving::index_builder2::{fill_bit_groups, process_segment as process_small_segment};

fn slice_of(segment: &[u32], len: usize, i: u32) -> u32 {
    let mut w = 0u32;
    for j in 0..len {
        if (segment[j] >> i) & 1 == 1 {
            w |= 1 << (len - 1 - j);
        }
    }
    w
}

#[test]
fn fixed_groups_layout_of_two_segments() {
    let arr: Vec<u32> = (0..64).map(|x| (x as u32).wrapping_mul(2654435761)).collect();
    let groups = create_byte_code_from_array(&arr);
    assert_eq!(groups.len(), 8);
    // group g, slot 4 * s + t holds word 31 - 4g - t of segment s
    for g in 0..8 {
        for s in 0..2 {
            for t in 0..4 {
                assert_eq!(groups[g][4 * s + t], slice_of(&arr[32 * s..32 * s + 32], 32, (31 - 4 * g - t) as u32));
            }
        }
    }
    assert_eq!(groups[0][0], slice_of(&arr[0..32], 32, 31));
    assert_eq!(groups[0][4], slice_of(&arr[32..64], 32, 31));
    assert_eq!(groups[7][7], slice_of(&arr[32..64], 32, 0));
}

#[test]
fn fixed_groups_of_one_segment_bit_29() {
    let mut arr = vec![0u32; 32];
    arr[0] = 1 << 29;
    let groups = create_byte_code_from_array(&arr);
    assert_eq!(groups.len(), 8);
    assert_eq!(groups[0][2], 0x8000_0000);
    for g in 0..8 {
        for slot in 0..8 {
            if !(g == 0 && slot == 2) {
                assert_eq!(groups[g][slot], 0);
            }
        }
    }
}

#[test]
fn fixed_groups_of_five_segments() {
    let arr: Vec<u32> = (0..160).map(|x| x as u32 * 3).collect();
    let groups = create_byte_code_from_array(&arr);
    assert_eq!(groups.len(), 24);
    // segment 4 starts a new row of bit groups at group 16, slot 0
    assert_eq!(groups[16][0], slice_of(&arr[128..160], 32, 31));
    assert_eq!(groups[16][3], slice_of(&arr[128..160], 32, 28));
    assert_eq!(groups[17][0], slice_of(&arr[128..160], 32, 27));
    assert_eq!(groups[16][4], 0);
    assert_eq!(groups[23][7], 0);
}

#[test]
fn fixed_groups_partial_segment_length() {
    let segment = vec![1u32, 0, 1];
    let mut groups: Vec<[u32; 8]> = Vec::new();
    process_segment(0, &segment, 3, &mut groups);
    assert_eq!(groups.len(), 8);
    // bit 0 slice is word 31: group 7, slot 3
    assert_eq!(groups[7][3], 0b101);
    assert_eq!(groups[0][0], 0);
}

#[test]
fn small_segment_slices_low_bits() {
    let segment: Vec<u32> = vec![0xFF, 0, 0x0F, 0xF0, 1, 2, 4, 0x180];
    let mut groups: Vec<Vec<u32>> = Vec::new();
    process_small_segment(&segment, &mut groups);
    assert_eq!(groups.len(), 4);
    for g in 0..4 {
        assert_eq!(groups[g].len(), 2);
        for t in 0..2 {
            assert_eq!(groups[g][t], slice_of(&segment, 8, (7 - (2 * g + t)) as u32));
        }
    }
}

#[test]
fn small_groups_fill_counts_whole_segments() {
    let values: Vec<u32> = (0..21).map(|x| x as u32 * 7).collect();
    let mut groups: Vec<Vec<u32>> = vec![vec![42]];
    let count = fill_bit_groups(&values, &mut groups);
    assert_eq!(count, 2);
    assert_eq!(groups.len(), 4);
    assert_eq!(groups[0].len(), 5);
    assert_eq!(groups[0][0], 42);
    assert_eq!(groups[0][1], slice_of(&values[0..8], 8, 7));
    assert_eq!(groups[3].len(), 4);
    assert_eq!(groups[3][3], slice_of(&values[8..16], 8, 0));
}

#[test]
fn split_fields_at_commas() {
    let fields = split_fields(b"1, 2,,x\n");
    assert_eq!(fields, vec![b"1".to_vec(), b" 2".to_vec(), b"".to_vec(), b"x\n".to_vec()]);
    assert_eq!(split_fields(b""), vec![Vec::<u8>::new()]);
    assert_eq!(split_fields(b","), vec![Vec::<u8>::new(), Vec::new()]);
}

#[test]
fn split_then_join_gives_the_line() {
    let line = b"a,bb,,ccc,".to_vec();
    let fields = split_fields(&line);
    assert_eq!(fields.join(&b',').to_vec(), line);
}

#[test]
fn route_fields_to_columns() {
    let rows = vec![
        vec![b"a".to_vec(), b"1".to_vec()],
        vec![b"b".to_vec(), b"2".to_vec()],
        vec![b"c".to_vec()],
    ];
    let columns = route_fields(&rows, 3);
    assert_eq!(columns, vec![b"a\nb\nc".to_vec(), b"1\n2".to_vec(), Vec::new()]);
}

#[test]
fn column_stores_of_two_lines() {
    let lines = vec![b"1, 2".to_vec(), b"3,4".to_vec()];
    let columns = column_stores(&lines, 2);
    assert_eq!(columns, vec![b"1\n3".to_vec(), b"2\n4".to_vec()]);
}

#[test]
fn column_stores_trim_each_field() {
    let lines = vec![b" a ,\tb\r".to_vec(), b"c".to_vec()];
    let columns = column_stores(&lines, 3);
    assert_eq!(columns, vec![b"a\nc".to_vec(), b"b".to_vec(), Vec::new()]);
}

#[test]
fn trim_field_removes_white_space_at_both_ends() {
    assert_eq!(trim_field(b"  x y \n"), b"x y".to_vec());
    assert_eq!(trim_field(b"   "), Vec::<u8>::new());
    assert_eq!(trim_field(b""), Vec::<u8>::new());
    let wide = "\u{a0}\u{3000}x\u{2009}\u{85}".as_bytes().to_vec();
    assert_eq!(trim_field(&wide), b"x".to_vec());
    assert_eq!(trim_field("x\u{a0}y".as_bytes()), "x\u{a0}y".as_bytes().to_vec());
    for s in ["\u{1680}a\u{205f}", " \u{2028}b\u{2029}\u{202f}", "\u{b}c\u{c}"] {
        assert_eq!(trim_field(s.as_bytes()), s.trim().as_bytes().to_vec());
    }
}

#[test]
fn small_groups_use_only_the_low_byte() {
    let a: Vec<u32> = (0..16).map(|j| j * 37 % 256).collect();
    let b: Vec<u32> = a.iter().enumerate().map(|(j, v)| v + 256 * (j as u32 + 1)).collect();
    let mut ga: Vec<Vec<u32>> = Vec::new();
    let mut gb: Vec<Vec<u32>> = Vec::new();
    fill_bit_groups(&a, &mut ga);
    fill_bit_groups(&b, &mut gb);
    assert_eq!(ga.len(), 4);
    assert_eq!(ga, gb);
}

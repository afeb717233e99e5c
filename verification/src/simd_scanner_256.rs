//! Range scan over a bit-group index, eight segments side by side, one per
//! 32-bit lane of a 256-bit vector, reading the laid-out bit groups.
use vstd::prelude::*;
use crate::bits::bit_of;
use crate::bitgroup::{into_boxed_words, BitGroup};
use crate::compare::{bit_mask_word, constant_masks, lane_in_range};
use crate::lanes::{compare_block_flat, flat_tails, lane_words, split_stop_group};

verus! {

/// The bit group before which the block of eight segments starting at
/// segment `s` stops comparing.
pub open spec fn octet_stop_group(bg: BitGroup, s: int, c1: u32, c2: u32) -> nat {
    let b = bg.b as int;
    let k_b = bg.k / bg.b;
    split_stop_group(flat_tails(bg.bit_group_box@, b * bg.segment_size, k_b as int), b, 8, s, c1, c2, bg.k as int, 0, k_b as nat)
}

/// Lane `r % 8` of the block of eight segments holding segment `r` marks a
/// value of segment `r` strictly between `c1` and `c2`, as far as the block
/// reads the laid-out bit groups before it stops.
pub open spec fn octet_lane_in_range(bg: BitGroup, r: int, p: u32, c1: u32, c2: u32) -> bool {
    let b = bg.b as int;
    let k_b = bg.k / bg.b;
    lane_in_range(
        lane_words(
            flat_tails(bg.bit_group_box@, b * bg.segment_size, k_b as int),
            b,
            8,
            8 * (r / 8),
            r % 8,
            octet_stop_group(bg, 8 * (r / 8), c1, c2),
        ),
        p,
        c1,
        c2,
        bg.k as int,
    )
}

/// Marks, for every segment, the values `v` with `c1 < v < c2`, eight
/// segments at a time; word `r` of the result holds the marks of segment
/// `r`. The segment count must be a multiple of eight.
///
/// A block stops comparing before a bit group when its last four lanes are
/// all decided against both constants while each of its first four still
/// equals a constant in some position; the first four lanes then mark only
/// what the bit groups read so far decide (a value still equal to a
/// constant's prefix is not marked).
pub fn scan_between(input_bit_group: &BitGroup, c1: u32, c2: u32) -> (result_arr: Box<[u32]>)
    requires
        input_bit_group.b > 0,
        input_bit_group.k <= 32,
        input_bit_group.segment_size % 8 == 0,
        (input_bit_group.k / input_bit_group.b + 1) * (input_bit_group.b * input_bit_group.segment_size)
            + 8 * input_bit_group.b + input_bit_group.k <= usize::MAX,
    ensures
        result_arr@.len() == input_bit_group.segment_size,
        forall|r: int, p: u32| 0 <= r < input_bit_group.segment_size && p < 32 ==>
            #[trigger] bit_of(result_arr@[r], p) == octet_lane_in_range(*input_bit_group, r, p, c1, c2),
{
    let k: usize = input_bit_group.k;
    let b: usize = input_bit_group.b;
    let segment_size: usize = input_bit_group.segment_size;
    let input_arr = &input_bit_group.bit_group_box;

    let result_size = segment_size;
    let mut result_vec: Vec<u32> = Vec::with_capacity(result_size);
    let mut z: usize = 0;
    while z < result_size
        invariant
            z <= result_size,
            result_vec.len() == z,
            forall|r: int| 0 <= r < z ==> #[trigger] result_vec[r] == 0u32,
        decreases result_size - z,
    {
        result_vec.push(0);
        z += 1;
    }

    let c1_arr = constant_masks(c1, k);
    let c2_arr = constant_masks(c2, k);

    let k_b = k / b;
    proof {
        assert((k_b + 1) * (b * segment_size) == k_b * (b * segment_size) + b * segment_size) by (nonlinear_arith);
        assert(k_b * (b * segment_size) >= 0) by (nonlinear_arith)
            requires
                k_b >= 0,
        ;
    }
    let h = b * segment_size;
    let mut result_index: usize = 0;
    let mut s: usize = 0;
    while s < segment_size
        invariant
            s % 8 == 0,
            s <= segment_size,
            segment_size % 8 == 0,
            result_index == s,
            result_vec.len() == segment_size,
            b == input_bit_group.b,
            k == input_bit_group.k,
            segment_size == input_bit_group.segment_size,
            input_arr@ == input_bit_group.bit_group_box@,
            b > 0,
            k <= 32,
            k_b == k / b,
            h == b * segment_size,
            k_b * h + h + 8 * b + k <= usize::MAX,
            c1_arr.len() == 32,
            c2_arr.len() == 32,
            forall|idx: int| 0 <= idx < 32 ==> #[trigger] c1_arr[idx] == (if idx < k { bit_mask_word(c1, k as int, idx) } else { 0u32 }),
            forall|idx: int| 0 <= idx < 32 ==> #[trigger] c2_arr[idx] == (if idx < k { bit_mask_word(c2, k as int, idx) } else { 0u32 }),
            forall|r: int| s <= r < segment_size ==> #[trigger] result_vec[r] == 0u32,
            forall|r: int, p: u32| 0 <= r < s && p < 32 ==>
                #[trigger] bit_of(result_vec[r], p) == octet_lane_in_range(*input_bit_group, r, p, c1, c2),
        decreases segment_size - s,
    {
        proof {
            assert(s + 8 <= segment_size);
            assert((s + 8) * b <= h) by (nonlinear_arith)
                requires
                    s + 8 <= segment_size,
                    h == b * segment_size,
                    b > 0,
            ;
        }
        let m_result = compare_block_flat(input_arr, h, s, b, k, 8, c1, c2, &c1_arr, &c2_arr);
        let mut j: usize = 0;
        while j < 8
            invariant
                j <= 8,
                result_index == s + j,
                s + 8 <= segment_size,
                s % 8 == 0,
                result_vec.len() == segment_size,
                m_result.len() == 8,
                forall|x: int, p: u32| 0 <= x < 8 && p < 32 ==> #[trigger] bit_of(m_result[x], p) == lane_in_range(
                    lane_words(
                        flat_tails(input_arr@, h as int, (k / b) as int),
                        b as int,
                        8,
                        s as int,
                        x,
                        octet_stop_group(*input_bit_group, s as int, c1, c2),
                    ),
                    p,
                    c1,
                    c2,
                    k as int,
                ),
                input_arr@ == input_bit_group.bit_group_box@,
                b == input_bit_group.b,
                k == input_bit_group.k,
                h == b * segment_size,
                segment_size == input_bit_group.segment_size,
                forall|r: int| s + j <= r < segment_size ==> #[trigger] result_vec[r] == 0u32,
                forall|r: int, p: u32| 0 <= r < s + j && p < 32 ==>
                    #[trigger] bit_of(result_vec[r], p) == octet_lane_in_range(*input_bit_group, r, p, c1, c2),
            decreases 8 - j,
        {
            proof {
                crate::bits::lemma_or_zero(m_result[j as int]);
            }
            let ghost before = result_vec@;
            result_vec.set(result_index, result_vec[result_index] | m_result[j]);
            proof {
                assert forall|r: int, p: u32| 0 <= r < s + j + 1 && p < 32 implies
                    #[trigger] bit_of(result_vec[r], p) == octet_lane_in_range(*input_bit_group, r, p, c1, c2) by {
                    if r == s + j {
                        assert((s + j) / 8 == s / 8);
                        assert(8 * ((s + j) / 8) == s);
                        assert((s + j) % 8 == j);
                    } else {
                        assert(result_vec[r] == before[r]);
                    }
                }
            }
            result_index = result_index + 1;
            j += 1;
        }
        s += 8;
    }
    into_boxed_words(result_vec)
}

} // verus!

//! Range scan over a bit-group index, four segments side by side, one per
//! 32-bit lane of a 128-bit vector.
use vstd::prelude::*;
use bit_vec::BitVec;
use crate::bitgroup::BitGroup;
use crate::bitvec_ops::bits_of;
use crate::lanes::{block_lane_in_range, block_reads_fit, nested_views, scan_in_blocks_of_four};

verus! {

/// Marks the values `v` with `c1 < v < c2`, four segments at a time.
/// A block reads a bit group only while some lane is undecided, and every
/// bit group it reads must exist (`block_reads_fit`).
///
/// For every block of four segments (the last one may reach past the
/// segments; lanes beyond the data of a bit group read nothing from it)
/// 128 marks are appended: 32 for each of segments `4q` to `4q + 3`, most
/// significant bit first.
pub fn scan_between(input_bit_group: BitGroup, c1: u32, c2: u32) -> (result_bv: BitVec)
    requires
        input_bit_group.b > 0,
        input_bit_group.k <= 32,
        forall|q: int| 0 <= q < (input_bit_group.segment_size + 3) / 4 ==> #[trigger] block_reads_fit(
            nested_views(input_bit_group.bit_groups@),
            input_bit_group.bit_groups.len() as int,
            input_bit_group.b as int,
            4,
            4 * q,
            c1,
            c2,
            input_bit_group.k as int,
            0,
            (input_bit_group.k / input_bit_group.b) as nat,
        ),
        (input_bit_group.segment_size + 3) * input_bit_group.b + input_bit_group.k <= usize::MAX,
        128 * ((input_bit_group.segment_size + 3) / 4) <= usize::MAX,
    ensures
        bits_of(result_bv).len() == 128 * ((input_bit_group.segment_size + 3) / 4),
        forall|q: int, u: int, p: u32| 0 <= q < (input_bit_group.segment_size + 3) / 4 && 0 <= u < 4 && p < 32 ==>
            #[trigger] bits_of(result_bv)[128 * q + 32 * u + 31 - p] == block_lane_in_range(input_bit_group, q, u, p, c1, c2),
{
    let order: [usize; 4] = [0, 1, 2, 3];
    proof {
        assert(order@[0] == 0 && order@[1] == 1 && order@[2] == 2 && order@[3] == 3);
    }
    scan_in_blocks_of_four(input_bit_group, c1, c2, order)
}

} // verus!

//! An early sketch of the bit-group scan over a fixed shape of index (four
//! segments of 32 values, bit groups of 8 bit positions) that compares
//! nothing yet: every segment's result word stays zero.
use vstd::prelude::*;
use bit_vec::BitVec;
use crate::bitvec_ops::{append_word_bits, bits_of, bitvec_new, word_bits};
use crate::bits::lemma_zero_bits;

verus! {

/// Builds the constant's table of broadcast words the sketch prepares: an
/// entry is all ones when `c & (1 << (i + 1))` equals 1, which no bit test
/// ever does, so every entry is zero.
fn sketch_masks(c: u64, k: usize) -> (v: Vec<u32>)
    requires
        k <= 63,
    ensures
        v.len() == k,
        forall|i: int| 0 <= i < k ==> #[trigger] v[i] == 0u32,
{
    let mut v: Vec<u32> = Vec::new();
    let mut i: usize = 0;
    while i < k
        invariant
            i <= k <= 63,
            v.len() == i,
            forall|x: int| 0 <= x < i ==> #[trigger] v[x] == 0u32,
        decreases k - i,
    {
        let sh: u64 = (i + 1) as u64;
        proof {
            assert((c & (1u64 << sh)) != 1u64) by (bit_vector)
                requires
                    1 <= sh < 64,
            ;
        }
        if (c & (1u64 << sh)) == 1 {
            v.push(!0u32);
        } else {
            v.push(0);
        }
        i += 1;
    }
    v
}

/// Runs the sketched scan: for each of its four segments it appends the 32
/// bits of the segment's result word, which is always zero, so the result
/// is 128 clear bits whatever the constants.
#[allow(non_snake_case)]
pub fn scanBetween(c1: u64, c2: u64) -> (result_bv: BitVec)
    ensures
        bits_of(result_bv) == Seq::new(128, |i: int| false),
{
    // number of words per segment
    let k: usize = 32;
    // number of words per group
    let b: usize = 8;
    let number_of_segments: usize = 4;

    let mut result_bv = bitvec_new();
    let _c1_vec = sketch_masks(c1, k);
    let _c2_vec = sketch_masks(c2, k);
    let k_b = k / b;

    let mut s: usize = 0;
    while s < number_of_segments
        invariant
            s <= number_of_segments,
            number_of_segments == 4,
            k_b == 4,
            bits_of(result_bv) == Seq::new(32 * s as nat, |i: int| false),
        decreases number_of_segments - s,
    {
        let mlt: u32 = 0;
        let mgt: u32 = !0u32;
        let meq1: u32 = 1;
        let meq2: u32 = 0;
        let mut g: usize = 0;
        while g < k_b && !(meq1 == 0 && meq2 == 0)
            invariant
                g <= k_b,
            decreases k_b - g,
        {
            g += 1;
        }
        let m_result: u32 = mgt & mlt;
        proof {
            assert(!0u32 & 0u32 == 0u32) by (bit_vector);
            assert forall|i: int| 0 <= i < 32 implies #[trigger] word_bits(m_result)[i] == false by {
                lemma_zero_bits((31 - i) as u32);
            }
        }
        let ghost before = bits_of(result_bv);
        append_word_bits(&mut result_bv, m_result);
        proof {
            assert(bits_of(result_bv) =~= Seq::new(32 * (s + 1) as nat, |i: int| false));
        }
        s += 1;
    }
    result_bv
}

} // verus!

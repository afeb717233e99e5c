//! Range scan over a bit-group index, one segment (32 values) at a time.
use vstd::prelude::*;
use vstd::arithmetic::div_mod::{lemma_fundamental_div_mod, lemma_fundamental_div_mod_converse};
use crate::bits::{bit_of, lemma_or_zero, lemma_zero_bits};
use crate::bitgroup::{into_boxed_words, BitGroup};
use crate::compare::{
    lane_decided, lemma_zero_mask_decided, lemma_masks_at, lane_value, const_prefix, bit_mask_word, constant_masks, lane_in_range, lemma_masks_decided, lemma_masks_finished,
    lemma_masks_start, lemma_masks_step, masks_agree,
};

verus! {

/// The words of segment `s` in order of bit position, read from the laid-out
/// bit groups `data` (each `h` words long, `b` words per segment); the first
/// `m` positions are taken.
pub open spec fn flat_segment_words(data: Seq<u32>, b: int, h: int, s: int, m: int) -> Seq<u32> {
    Seq::new(m as nat, |idx: int| data[(idx / b) * h + s * b + idx % b])
}

/// Number of bit positions a scan compares: the whole bit groups that fit in
/// `k` bits.
pub open spec fn compared_bits(k: int, b: int) -> int {
    (k / b) * b
}

/// Lane `p` of segment `s` of the index holds a value strictly between `c1`
/// and `c2`, comparing the first `compared_bits(k, b)` bit positions.
pub open spec fn flat_lane_in_range(bg: BitGroup, s: int, p: u32, c1: u32, c2: u32) -> bool {
    let b = bg.b as int;
    let k = bg.k as int;
    lane_in_range(
        flat_segment_words(bg.bit_group_box@, b, b * bg.segment_size, s, compared_bits(k, b)),
        p,
        c1,
        c2,
        k,
    )
}

/// `r` is the result of scanning `bg` for `c1 < v < c2` into `num / 32`
/// words: bit `p` of word `s` is set exactly when lane `p` of segment `s` is
/// in range, and words past the last segment are zero.
pub open spec fn scan_result(bg: BitGroup, num: u32, c1: u32, c2: u32, r: Seq<u32>) -> bool {
    &&& r.len() == num / 32
    &&& forall|s: int, p: u32| 0 <= s < num / 32 && p < 32 ==>
        #[trigger] bit_of(r[s], p) == (s < bg.segment_size && flat_lane_in_range(bg, s, p, c1, c2))
}

/// Segment `s`, compared from bit group `g` on, reads a bit group only while
/// some lane is undecided against one of the constants, and every bit group
/// it reads lies within the laid-out words.
pub open spec fn segment_reads_fit(bg: BitGroup, s: int, c1: u32, c2: u32, g: nat) -> bool
    decreases (bg.k / bg.b) - g,
{
    let b = bg.b as int;
    let k = bg.k as int;
    let h = b * bg.segment_size;
    let ws = flat_segment_words(bg.bit_group_box@, b, h, s, compared_bits(k, b));
    if g >= bg.k / bg.b {
        true
    } else if lane_decided(ws, c1, k, g * (bg.b as nat)) && lane_decided(ws, c2, k, g * (bg.b as nat)) {
        true
    } else {
        g * h + s * b + b <= bg.bit_group_box@.len() && segment_reads_fit(bg, s, c1, c2, g + 1)
    }
}

/// When the laid-out words hold every compared bit group in full, every
/// segment's reads fit.
pub proof fn lemma_reads_fit_when_laid_out(bg: BitGroup, s: int, c1: u32, c2: u32, g: nat)
    requires
        bg.b > 0,
        0 <= s < bg.segment_size,
        (bg.k / bg.b) * (bg.b * bg.segment_size) <= bg.bit_group_box@.len(),
    ensures
        segment_reads_fit(bg, s, c1, c2, g),
    decreases (bg.k / bg.b) - g,
{
    let b = bg.b as int;
    let h = b * bg.segment_size;
    let k_b = bg.k / bg.b;
    if g < k_b {
        lemma_reads_fit_when_laid_out(bg, s, c1, c2, g + 1);
        assert(g * h + s * b + b <= k_b * h) by (nonlinear_arith)
            requires
                g < k_b,
                0 <= s < bg.segment_size,
                h == b * bg.segment_size,
                b > 0,
        ;
    }
}

/// Marks, for every segment, the values `v` with `c1 < v < c2`.
///
/// The result has `num / 32` words; word `s` has bit `p` set exactly when
/// lane `p` of segment `s` is in range (lane `p` is value `31 - p` of the
/// segment). Words past the last segment are zero. For each segment the
/// comparison stops after a bit group once every lane already differs from
/// both constants, which does not change the outcome; it reads the laid-out
/// words only as far as `segment_reads_fit` says.
pub fn scan_between(input_bit_group: BitGroup, num: u32, c1: u32, c2: u32) -> (result_arr: Box<[u32]>)
    requires
        input_bit_group.b > 0,
        input_bit_group.k <= 32,
        input_bit_group.segment_size <= num / 32,
        forall|s: int| 0 <= s < input_bit_group.segment_size ==> #[trigger] segment_reads_fit(input_bit_group, s, c1, c2, 0),
        input_bit_group.b * input_bit_group.segment_size + input_bit_group.k <= usize::MAX,
    ensures
        scan_result(input_bit_group, num, c1, c2, result_arr@),
{
    let ghost bg = input_bit_group;
    // number of bits per value
    let k: usize = input_bit_group.k;
    // number of bit positions per group
    let b: usize = input_bit_group.b;
    let segment_size: usize = input_bit_group.segment_size;
    let input_arr = input_bit_group.bit_group_box;
    let ghost data = input_arr@;
    let arr_len = input_arr.len();

    let result_size = num / 32;
    let mut result_vec: Vec<u32> = Vec::with_capacity(result_size as usize);
    let mut z: u32 = 0;
    while z < result_size
        invariant
            z <= result_size,
            result_vec.len() == z,
            forall|r: int| 0 <= r < z ==> #[trigger] result_vec[r] == 0u32,
        decreases result_size - z,
    {
        result_vec.push(0);
        z += 1;
    }

    let c1_arr = constant_masks(c1, k);
    let c2_arr = constant_masks(c2, k);

    let k_b = k / b;
    let h = b * segment_size;
    let ghost m: int = compared_bits(k as int, b as int);
    proof {
        lemma_fundamental_div_mod(k as int, b as int);
        assert(k_b * b <= k) by (nonlinear_arith)
            requires
                k == b * (k / b) + k % b,
                k % b >= 0,
                k_b == k / b,
        ;
        assert(k_b >= 1 ==> b <= k) by (nonlinear_arith)
            requires
                k_b == k / b,
                b > 0,
                k_b * b <= k,
        ;
    }

    let mut result_index: usize = 0;
    let mut s: usize = 0;
    while s < segment_size
        invariant
            s <= segment_size,
            result_index == s,
            segment_size <= result_size,
            result_vec.len() == result_size,
            b > 0,
            k <= 32,
            k_b == k / b,
            k_b * b <= k,
            m == k_b * b,
            k_b >= 1 ==> b <= k,
            h == b * segment_size,
            data.len() == arr_len,
            h + k <= usize::MAX,
            data == input_arr@,
            b == bg.b,
            k == bg.k,
            segment_size == bg.segment_size,
            data == bg.bit_group_box@,
            forall|r: int| 0 <= r < segment_size ==> #[trigger] segment_reads_fit(bg, r, c1, c2, 0),
            c1_arr.len() == 32,
            c2_arr.len() == 32,
            forall|idx: int| 0 <= idx < 32 ==> #[trigger] c1_arr[idx] == (if idx < k { bit_mask_word(c1, k as int, idx) } else { 0u32 }),
            forall|idx: int| 0 <= idx < 32 ==> #[trigger] c2_arr[idx] == (if idx < k { bit_mask_word(c2, k as int, idx) } else { 0u32 }),
            forall|r: int| s <= r < result_size ==> #[trigger] result_vec[r] == 0u32,
            forall|r: int, p: u32| 0 <= r < s && p < 32 ==>
                #[trigger] bit_of(result_vec[r], p) == lane_in_range(flat_segment_words(data, b as int, h as int, r, m), p, c1, c2, k as int),
        decreases segment_size - s,
    {
        let ghost ws = flat_segment_words(data, b as int, h as int, s as int, m);
        let mut mlt: u32 = 0;
        let mut mgt: u32 = 0;
        let mut meq1: u32 = !0u32;
        let mut meq2: u32 = !0u32;
        let mut index: usize = 0;
        proof {
            lemma_masks_start(ws, c1, c2, k as int);
            assert((s + 1) * b <= h) by (nonlinear_arith)
                requires
                    s < segment_size,
                    h == b * segment_size,
                    b > 0,
            ;
        }
        let mut g: usize = 0;
        while g < k_b && !(meq1 == 0 && meq2 == 0)
            invariant
                g <= k_b,
                k_b == k / b,
                index == g * b,
                s < segment_size,
                b > 0,
                k <= 32,
                k_b * b <= k,
                m == k_b * b,
                k_b >= 1 ==> b <= k,
                h == b * segment_size,
                (s + 1) * b <= h,
                data.len() == arr_len,
                h + k <= usize::MAX,
                data == input_arr@,
                ws == flat_segment_words(data, b as int, h as int, s as int, m),
                b == bg.b,
                k == bg.k,
                segment_size == bg.segment_size,
                data == bg.bit_group_box@,
                segment_reads_fit(bg, s as int, c1, c2, g as nat),
                c1_arr.len() == 32,
                c2_arr.len() == 32,
                forall|idx: int| 0 <= idx < 32 ==> #[trigger] c1_arr[idx] == (if idx < k { bit_mask_word(c1, k as int, idx) } else { 0u32 }),
                forall|idx: int| 0 <= idx < 32 ==> #[trigger] c2_arr[idx] == (if idx < k { bit_mask_word(c2, k as int, idx) } else { 0u32 }),
                masks_agree(mgt, mlt, meq1, meq2, ws, index as nat, c1, c2, k as int),
            decreases k_b - g,
        {
            proof {
                assert(s * b + b == (s + 1) * b) by (nonlinear_arith);
                assert forall|p: u32| p < 32 implies #[trigger] bit_of(meq2, p) == (lane_value(ws, p, index as nat) == const_prefix(c2, k as int, index as nat)) by {
                    lemma_masks_at(mgt, mlt, meq1, meq2, ws, index as nat, c1, c2, k as int, p);
                }
                lemma_zero_mask_decided(meq1, ws, c1, k as int, index as nat);
                lemma_zero_mask_decided(meq2, ws, c2, k as int, index as nat);
                assert(!(lane_decided(ws, c1, k as int, index as nat) && lane_decided(ws, c2, k as int, index as nat)));
                assert(compared_bits(k as int, b as int) == m);
                assert(index as nat == g * (b as nat));
                assert(g * h + s * b + b <= data.len());
                assert(g * h >= 0) by (nonlinear_arith)
                    requires
                        h >= 0,
                ;
            }
            let start = s * b;
            let end = if start + b < start + k { start + b } else { start + k };
            proof {
                assert((g + 1) * b <= k_b * b) by (nonlinear_arith)
                    requires
                        g < k_b,
                        b >= 0,
                ;
                assert(g * b + b == (g + 1) * b) by (nonlinear_arith);
                assert(s * b + b == (s + 1) * b) by (nonlinear_arith);
            }
            let offset = g * h;
            let mut i = start;
            while i < end
                invariant
                    start == s * b,
                    end == start + b,
                    start <= i <= end,
                    offset == g * h,
                    g < k_b,
                    index == g * b + (i - start),
                    b > 0,
                    k <= 32,
                    (g + 1) * b <= k_b * b,
                    k_b * b <= k,
                    m == k_b * b,
                    h == b * segment_size,
                    (s + 1) * b <= h,
                    s * b + b == (s + 1) * b,
                    g * b + b == (g + 1) * b,
                    g * h + s * b + b <= data.len(),
                    data.len() <= usize::MAX,
                    data == input_arr@,
                    ws == flat_segment_words(data, b as int, h as int, s as int, m),
                    c1_arr.len() == 32,
                    c2_arr.len() == 32,
                    forall|idx: int| 0 <= idx < 32 ==> #[trigger] c1_arr[idx] == (if idx < k { bit_mask_word(c1, k as int, idx) } else { 0u32 }),
                    forall|idx: int| 0 <= idx < 32 ==> #[trigger] c2_arr[idx] == (if idx < k { bit_mask_word(c2, k as int, idx) } else { 0u32 }),
                    masks_agree(mgt, mlt, meq1, meq2, ws, index as nat, c1, c2, k as int),
                decreases end - i,
            {
                let input_index = offset + i;
                proof {
                    lemma_fundamental_div_mod_converse(index as int, b as int, g as int, (i - start) as int);
                    assert(ws[index as int] == data[input_index as int]);
                    lemma_masks_step(mgt, mlt, meq1, meq2, ws, index as nat, c1, c2, k as int);
                }
                let x = input_arr[input_index];
                mgt = mgt | (meq1 & (!c1_arr[index]) & x);
                mlt = mlt | (meq2 & (c2_arr[index]) & (!x));
                meq1 = meq1 & !(x ^ c1_arr[index]);
                meq2 = meq2 & !(x ^ c2_arr[index]);
                index = index + 1;
                i = i + 1;
            }
            g += 1;
        }
        proof {
            if g == k_b {
                lemma_masks_finished(mgt, mlt, meq1, meq2, ws, c1, c2, k as int);
            } else {
                assert(index <= m) by (nonlinear_arith)
                    requires
                        index == g * b,
                        g <= k_b,
                        m == k_b * b,
                        b > 0,
                ;
                lemma_masks_decided(mgt, mlt, ws, index as nat, c1, c2, k as int);
            }
            lemma_or_zero(mgt & mlt);
        }
        result_vec.set(result_index, result_vec[result_index] | (mgt & mlt));
        result_index = result_index + 1;
        s = s + 1;
    }
    proof {
        assert forall|r: int, p: u32| 0 <= r < result_size && p < 32 implies
            #[trigger] bit_of(result_vec@[r], p) == (r < segment_size && flat_lane_in_range(bg, r, p, c1, c2)) by {
            if r >= segment_size {
                lemma_zero_bits(p);
            }
        }
    }
    into_boxed_words(result_vec)
}

} // verus!

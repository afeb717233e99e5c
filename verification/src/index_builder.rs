//! Building a bit-group index in fixed-size groups: every group is an array
//! of `WORDS_PER_BIT_GROUP` words shared by `SEGMENTS_PER_BIT_GROUP`
//! consecutive segments.
//!
//! For 64 values the bit groups are laid out as follows (`segSWk` is the bit
//! slice of bit `k` over segment `S`):
//!
//! ```text
//! BG0 -> [seg0W31, seg0W30, seg0W29, seg0W28, seg1W31, seg1W30, seg1W29, seg1W28]
//! BG1 -> [seg0W27, seg0W26, seg0W25, seg0W24, seg1W27, seg1W26, seg1W25, seg1W24]
//! ...
//! BG7 -> [seg0W3, seg0W2, seg0W1, seg0W0, seg1W3, seg1W2, seg1W1, seg1W0]
//! BG8 -> [seg2W31, seg2W30, seg2W29, seg2W28, seg3W31, seg3W30, seg3W29, seg3W28]
//! ```
use vstd::prelude::*;
use vstd::arithmetic::div_mod::lemma_fundamental_div_mod_converse;
use crate::bits::{bit_slice, is_bit_slice};

verus! {

/// Processor word size.
pub const BITS_PER_WORD: usize = 32;

/// Number of column values grouped into one segment.
pub const WORDS_PER_SEGMENT: usize = 32;

/// Number of words in one bit group.
pub const WORDS_PER_BIT_GROUP: usize = 8;

/// Number of segments sharing one bit group.
pub const SEGMENTS_PER_BIT_GROUP: usize = 2;

/// Number of words of a segment that belong to one bit group.
pub const WORDS_OF_SEGMENT_PER_BIT_GROUP: usize = WORDS_PER_BIT_GROUP / SEGMENTS_PER_BIT_GROUP;

/// Number of bit groups that a segment spans.
pub const BIT_GROUP_SPAN_OF_A_SEGMENT: usize = WORDS_PER_SEGMENT / WORDS_OF_SEGMENT_PER_BIT_GROUP;

/// The first bit group that segment `sn` writes to.
pub open spec fn segment_base(sn: int) -> int {
    (sn / 2) * 8
}

/// The first slot of a bit group that segment `sn` writes to.
pub open spec fn segment_slot(sn: int) -> int {
    (4 * sn) % 8
}

/// Slot `idx` of bit group `n` receives a word of segment `sn`.
pub open spec fn holds_word_of(n: int, idx: int, sn: int) -> bool {
    &&& segment_base(sn) <= n < segment_base(sn) + 8
    &&& segment_slot(sn) <= idx < segment_slot(sn) + 4
}

/// Which word of segment `sn` (counting from the most significant bit) slot
/// `idx` of bit group `n` receives.
pub open spec fn word_number(n: int, idx: int, sn: int) -> int {
    4 * (n - segment_base(sn)) + (idx - segment_slot(sn))
}

/// The slot of the word `k` of segment `sn`.
proof fn lemma_slot(sn: int, k: int)
    requires
        sn >= 0,
        k >= 0,
    ensures
        (sn * 4 + k % 4) % 8 == segment_slot(sn) + k % 4,
        segment_slot(sn) + 4 <= 8,
        segment_slot(sn) >= 0,
{
    let q = (4 * sn) / 8;
    let lo = (4 * sn) % 8;
    assert(4 * sn == 8 * q + lo && 0 <= lo < 8) by (nonlinear_arith)
        requires
            q == (4 * sn) / 8,
            lo == (4 * sn) % 8,
    ;
    assert(lo % 4 == 0) by (nonlinear_arith)
        requires
            4 * sn == 8 * q + lo,
    ;
    assert(lo <= 4);
    let r = k % 4;
    assert(0 <= r < 4);
    lemma_fundamental_div_mod_converse(sn * 4 + r, 8, q, lo + r);
}

/// Transposes segment `segment_number` (its first `segment_len` values) and
/// stores its `BITS_PER_WORD` bit slices in the fixed-size bit groups: the
/// slice of bit `31 - k` goes to group
/// `(segment_number / 2) * 8 + k / 4`, slot `(4 * segment_number + k % 4) % 8`.
/// A group is created when the first slice for it arrives; every other slot
/// keeps its value.
pub fn process_segment(segment_number: usize, segment: &[u32], segment_len: usize, bit_groups: &mut Vec<[u32; 8]>)
    requires
        segment_len <= segment.len(),
        old(bit_groups).len() >= segment_base(segment_number as int),
        old(bit_groups).len() + 8 <= usize::MAX,
    ensures
        final(bit_groups).len() == (if old(bit_groups).len() < segment_base(segment_number as int) + 8 {
            segment_base(segment_number as int) + 8
        } else {
            old(bit_groups).len() as int
        }),
        forall|n: int, idx: int| 0 <= n < final(bit_groups).len() && 0 <= idx < 8 ==>
            if holds_word_of(n, idx, segment_number as int) {
                is_bit_slice(#[trigger] final(bit_groups)@[n][idx], segment@, segment_len as int,
                    (31 - word_number(n, idx, segment_number as int)) as u32)
            } else {
                final(bit_groups)@[n][idx] == (if n < old(bit_groups).len() { old(bit_groups)@[n][idx] } else { 0u32 })
            },
{
    let ghost sn = segment_number as int;
    let ghost old_groups = bit_groups@;
    let mut i: usize = BITS_PER_WORD;
    let mut k: usize = 0;
    proof {
        assert(segment_number * 4 <= old_groups.len() + 4) by (nonlinear_arith)
            requires
                old_groups.len() >= (sn / 2) * 8,
                sn == segment_number,
                sn >= 0,
        ;
    }
    while i > 0
        invariant
            i <= 32,
            i + k == 32,
            segment_len <= segment.len(),
            old_groups.len() >= segment_base(sn),
            old_groups.len() + 8 <= usize::MAX,
            segment_number * 4 <= old_groups.len() + 4,
            sn == segment_number,
            bit_groups.len() == (if old_groups.len() < segment_base(sn) + (k + 3) / 4 {
                segment_base(sn) + (k + 3) / 4
            } else {
                old_groups.len() as int
            }),
            forall|n: int, idx: int| 0 <= n < bit_groups.len() && 0 <= idx < 8 ==>
                if holds_word_of(n, idx, sn) && word_number(n, idx, sn) < k {
                    is_bit_slice(#[trigger] bit_groups@[n][idx], segment@, segment_len as int,
                        (31 - word_number(n, idx, sn)) as u32)
                } else {
                    bit_groups@[n][idx] == (if n < old_groups.len() { old_groups[n][idx] } else { 0u32 })
                },
        decreases i,
    {
        i -= 1;
        let val: u32 = bit_slice(segment, segment_len, i as u32);
        proof {
            lemma_slot(sn, k as int);
            assert((sn / 2) * 8 <= old_groups.len());
            assert(WORDS_OF_SEGMENT_PER_BIT_GROUP == 4);
            assert(WORDS_PER_SEGMENT / WORDS_OF_SEGMENT_PER_BIT_GROUP == 32usize / 4usize);
            assert(32usize / 4usize == 8);
            assert(BIT_GROUP_SPAN_OF_A_SEGMENT == 8);
            assert(k / 4 <= 7);
        }
        let bit_group_number: usize = ((segment_number / SEGMENTS_PER_BIT_GROUP) * BIT_GROUP_SPAN_OF_A_SEGMENT)
            + (k / WORDS_OF_SEGMENT_PER_BIT_GROUP);
        let index_within_bit_group: usize = ((segment_number * WORDS_OF_SEGMENT_PER_BIT_GROUP) + (k
            % WORDS_OF_SEGMENT_PER_BIT_GROUP)) % WORDS_PER_BIT_GROUP;
        let ghost before_push = bit_groups@;
        if bit_group_number >= bit_groups.len() {
            bit_groups.push([0u32; 8]);
        }
        let ghost before = bit_groups@;
        bit_groups[bit_group_number][index_within_bit_group] = val;
        proof {
            assert forall|n: int, idx: int| 0 <= n < bit_groups.len() && 0 <= idx < 8 implies
                if holds_word_of(n, idx, sn) && word_number(n, idx, sn) < k + 1 {
                    is_bit_slice(#[trigger] bit_groups@[n][idx], segment@, segment_len as int,
                        (31 - word_number(n, idx, sn)) as u32)
                } else {
                    bit_groups@[n][idx] == (if n < old_groups.len() { old_groups[n][idx] } else { 0u32 })
                } by {
                if n == bit_group_number && idx == index_within_bit_group {
                    assert(holds_word_of(n, idx, sn));
                    assert(word_number(n, idx, sn) == k);
                    assert(i == 31 - k);
                } else {
                    assert(bit_groups@[n][idx] == before[n][idx]);
                    if holds_word_of(n, idx, sn) && word_number(n, idx, sn) == k {
                        assert(n == bit_group_number && idx == index_within_bit_group);
                    }
                    if n < before_push.len() {
                        assert(before[n] == before_push[n]);
                    } else {
                        assert(before[n][idx] == 0u32);
                        assert(n >= old_groups.len());
                    }
                }
            }
        }
        k += 1;
    }
}


/// The segment whose word lands in slot `idx` of bit group `n` when whole
/// segments are stored from segment 0 on.
pub open spec fn owner_segment(n: int, idx: int) -> int {
    2 * (n / 8) + idx / 4
}

/// Which word of its segment (counting from the most significant bit) slot
/// `idx` of bit group `n` holds.
pub open spec fn owner_word(n: int, idx: int) -> int {
    4 * (n % 8) + idx % 4
}

/// The slots segment `q` writes are exactly those it owns.
proof fn lemma_layout(n: int, idx: int, q: int)
    requires
        n >= 0,
        0 <= idx < 8,
        q >= 0,
    ensures
        holds_word_of(n, idx, q) == (owner_segment(n, idx) == q),
        holds_word_of(n, idx, q) ==> word_number(n, idx, q) == owner_word(n, idx),
{
    let a = n / 8;
    let r = n % 8;
    let c = idx / 4;
    let d = idx % 4;
    let e = q / 2;
    let f = q % 2;
    assert(n == 8 * a + r && 0 <= r < 8) by (nonlinear_arith)
        requires
            a == n / 8,
            r == n % 8,
    ;
    assert(idx == 4 * c + d && 0 <= d < 4) by (nonlinear_arith)
        requires
            c == idx / 4,
            d == idx % 4,
    ;
    assert(q == 2 * e + f && 0 <= f < 2) by (nonlinear_arith)
        requires
            e == q / 2,
            f == q % 2,
    ;
    lemma_fundamental_div_mod_converse(4 * q, 8, e, 4 * f);
    assert(segment_base(q) == 8 * e);
    assert(segment_slot(q) == 4 * f);
}

/// Stores a whole column, segment by segment, in fixed-size bit groups.
/// The column must consist of whole segments. Slot `idx` of bit group `n`
/// ends up holding the bit slice of bit `31 - owner_word(n, idx)` over
/// segment `owner_segment(n, idx)`, or zero when there is no such segment.
pub fn create_byte_code_from_array(arr: &[u32]) -> (bit_groups: Vec<[u32; 8]>)
    requires
        arr.len() % WORDS_PER_SEGMENT == 0,
    ensures
        bit_groups.len() == ((arr.len() / 32 + 1) / 2) * 8,
        forall|n: int, idx: int| 0 <= n < bit_groups.len() && 0 <= idx < 8 ==>
            if owner_segment(n, idx) < arr.len() / 32 {
                is_bit_slice(#[trigger] bit_groups@[n][idx],
                    arr@.subrange(32 * owner_segment(n, idx), 32 * owner_segment(n, idx) + 32),
                    32, (31 - owner_word(n, idx)) as u32)
            } else {
                bit_groups@[n][idx] == 0u32
            },
{
    let mut bit_groups: Vec<[u32; 8]> = Vec::new();
    let mut i: usize = 0;
    while i < arr.len()
        invariant
            i <= arr.len(),
            i % 32 == 0,
            arr.len() % 32 == 0,
            bit_groups.len() == ((i / 32 + 1) / 2) * 8,
            forall|n: int, idx: int| 0 <= n < bit_groups.len() && 0 <= idx < 8 ==>
                if owner_segment(n, idx) < i / 32 {
                    is_bit_slice(#[trigger] bit_groups@[n][idx],
                        arr@.subrange(32 * owner_segment(n, idx), 32 * owner_segment(n, idx) + 32),
                        32, (31 - owner_word(n, idx)) as u32)
                } else {
                    bit_groups@[n][idx] == 0u32
                },
        decreases arr.len() - i,
    {
        let ghost q = (i / 32) as int;
        proof {
            assert(i + 32 <= arr.len()) by (nonlinear_arith)
                requires
                    i < arr.len(),
                    i % 32 == 0,
                    arr.len() % 32 == 0,
            ;
            assert(((q + 1) / 2) * 8 >= (q / 2) * 8) by (nonlinear_arith)
                requires
                    q >= 0,
            ;
            assert(((q + 1) / 2) * 8 <= 4 * q + 8) by (nonlinear_arith)
                requires
                    q >= 0,
            ;
            assert(4 * q <= i);
            assert(((q + 2) / 2) * 8 == (if ((q + 1) / 2) * 8 < (q / 2) * 8 + 8 { (q / 2) * 8 + 8 } else { ((q + 1) / 2) * 8 })) by (nonlinear_arith)
                requires
                    q >= 0,
            ;
        }
        let segment = slice_range(arr, i, i + WORDS_PER_SEGMENT);
        let ghost before = bit_groups@;
        process_segment(i / WORDS_PER_SEGMENT, segment, WORDS_PER_SEGMENT, &mut bit_groups);
        proof {
            assert((i + 32) / 32 == q + 1);
            assert(((q + 2) / 2) * 8 == (((q + 1) + 1) / 2) * 8);
            assert forall|n: int, idx: int| 0 <= n < bit_groups.len() && 0 <= idx < 8 implies
                if owner_segment(n, idx) < q + 1 {
                    is_bit_slice(#[trigger] bit_groups@[n][idx],
                        arr@.subrange(32 * owner_segment(n, idx), 32 * owner_segment(n, idx) + 32),
                        32, (31 - owner_word(n, idx)) as u32)
                } else {
                    bit_groups@[n][idx] == 0u32
                } by {
                lemma_layout(n, idx, q);
                if owner_segment(n, idx) == q {
                    assert(segment@ == arr@.subrange(32 * q, 32 * q + 32));
                }
            }
        }
        i += WORDS_PER_SEGMENT;
    }
    bit_groups
}

/// The sub-slice `values[start..end]`.
fn slice_range(values: &[u32], start: usize, end: usize) -> (r: &[u32])
    requires
        start <= end <= values.len(),
    ensures
        r@ == values@.subrange(start as int, end as int),
{
    &values[start..end]
}

} // verus!

//! The bit-parallel range comparison, modelled lane by lane.
//!
//! The words of one segment are read in order of bit position, most
//! significant first; lane `p` of those words spells out one value of the
//! segment. Comparing that value with a constant, most significant bit
//! first, is what the scanners do for all 32 lanes at once.
use vstd::prelude::*;
use crate::bits::{bit_of, lemma_and_bits, lemma_compare_step_bits, lemma_ones_bits, lemma_single_bit_mask, lemma_zero_bits, lemma_zero_iff_no_bits};

verus! {

/// 1 when bit `p` of `x` is set, else 0.
pub open spec fn bit_value(x: u32, p: u32) -> int {
    if bit_of(x, p) { 1 } else { 0 }
}

/// The number spelled by lane `p` of the first `n` words of `ws`, the first
/// word giving the most significant digit.
pub open spec fn lane_value(ws: Seq<u32>, p: u32, n: nat) -> int
    decreases n,
{
    if n == 0 {
        0
    } else {
        2 * lane_value(ws, p, (n - 1) as nat) + bit_value(ws[n - 1], p)
    }
}

/// The number spelled by the `n` most significant bits of the `k`-bit
/// constant `c`.
pub open spec fn const_prefix(c: u32, k: int, n: nat) -> int
    decreases n,
{
    if n == 0 {
        0
    } else {
        2 * const_prefix(c, k, (n - 1) as nat) + bit_value(c, (k - n) as u32)
    }
}

/// Lane `p` of the words `ws` spells a value strictly between the constants
/// `c1` and `c2` (both read as `k`-bit numbers cut to `ws.len()` bits).
pub open spec fn lane_in_range(ws: Seq<u32>, p: u32, c1: u32, c2: u32, k: int) -> bool {
    let v = lane_value(ws, p, ws.len());
    const_prefix(c1, k, ws.len()) < v && v < const_prefix(c2, k, ws.len())
}

/// The broadcast word of bit `k - 1 - idx` of `c`: all ones when that bit
/// is set, all zeros when not.
pub open spec fn bit_mask_word(c: u32, k: int, idx: int) -> u32 {
    if bit_of(c, (k - 1 - idx) as u32) { !0u32 } else { 0u32 }
}

/// The four comparison masks describe, lane by lane, how the first `n`
/// words of `ws` compare with `c1` and `c2`.
pub open spec fn masks_agree(
    mgt: u32,
    mlt: u32,
    meq1: u32,
    meq2: u32,
    ws: Seq<u32>,
    n: nat,
    c1: u32,
    c2: u32,
    k: int,
) -> bool {
    forall|p: u32| p < 32 ==> {
        &&& #[trigger] bit_of(meq1, p) == (lane_value(ws, p, n) == const_prefix(c1, k, n))
        &&& bit_of(mgt, p) == (lane_value(ws, p, n) > const_prefix(c1, k, n))
        &&& bit_of(meq2, p) == (lane_value(ws, p, n) == const_prefix(c2, k, n))
        &&& bit_of(mlt, p) == (lane_value(ws, p, n) < const_prefix(c2, k, n))
    }
}

/// Appending one binary digit to two numbers compares them lexicographically.
pub proof fn lemma_digit_step(v: int, c: int, x: int, y: int)
    requires
        x == 0 || x == 1,
        y == 0 || y == 1,
    ensures
        (2 * v + x == 2 * c + y) == (v == c && x == y),
        (2 * v + x > 2 * c + y) == (v > c || (v == c && x == 1 && y == 0)),
        (2 * v + x < 2 * c + y) == (v < c || (v == c && x == 0 && y == 1)),
{
}

/// Once a lane differs from the constant, reading more digits never changes
/// which of the two is greater.
pub proof fn lemma_decided_lane(ws: Seq<u32>, p: u32, c: u32, k: int, n: nat, m: nat)
    requires
        n <= m,
        lane_value(ws, p, n) != const_prefix(c, k, n),
    ensures
        lane_value(ws, p, m) != const_prefix(c, k, m),
        (lane_value(ws, p, m) > const_prefix(c, k, m)) == (lane_value(ws, p, n) > const_prefix(c, k, n)),
    decreases m - n,
{
    if m > n {
        lemma_decided_lane(ws, p, c, k, n, (m - 1) as nat);
        lemma_digit_step(
            lane_value(ws, p, (m - 1) as nat),
            const_prefix(c, k, (m - 1) as nat),
            bit_value(ws[m - 1], p),
            bit_value(c, (k - m) as u32),
        );
    }
}

/// The masks before any word is read: everything equal, nothing greater or
/// less.
pub proof fn lemma_masks_start(ws: Seq<u32>, c1: u32, c2: u32, k: int)
    ensures
        masks_agree(0u32, 0u32, !0u32, !0u32, ws, 0, c1, c2, k),
{
    assert forall|p: u32| p < 32 implies {
        &&& #[trigger] bit_of(!0u32, p) == (lane_value(ws, p, 0) == const_prefix(c1, k, 0))
        &&& bit_of(0u32, p) == (lane_value(ws, p, 0) > const_prefix(c1, k, 0))
        &&& bit_of(!0u32, p) == (lane_value(ws, p, 0) == const_prefix(c2, k, 0))
        &&& bit_of(0u32, p) == (lane_value(ws, p, 0) < const_prefix(c2, k, 0))
    } by {
        lemma_ones_bits(p);
        lemma_zero_bits(p);
    }
}

/// One word of the comparison keeps the masks in agreement with the model.
pub proof fn lemma_masks_step(
    mgt: u32,
    mlt: u32,
    meq1: u32,
    meq2: u32,
    ws: Seq<u32>,
    n: nat,
    c1: u32,
    c2: u32,
    k: int,
)
    requires
        masks_agree(mgt, mlt, meq1, meq2, ws, n, c1, c2, k),
        n < ws.len(),
        n < k <= 32,
    ensures
        ({
            let x = ws[n as int];
            let w1 = bit_mask_word(c1, k, n as int);
            let w2 = bit_mask_word(c2, k, n as int);
            masks_agree(
                mgt | (meq1 & (!w1) & x),
                mlt | (meq2 & w2 & (!x)),
                meq1 & !(x ^ w1),
                meq2 & !(x ^ w2),
                ws,
                n + 1,
                c1,
                c2,
                k,
            )
        }),
{
    let x = ws[n as int];
    let w1 = bit_mask_word(c1, k, n as int);
    let w2 = bit_mask_word(c2, k, n as int);
    assert forall|p: u32| p < 32 implies {
        &&& #[trigger] bit_of(meq1 & !(x ^ w1), p) == (lane_value(ws, p, n + 1) == const_prefix(c1, k, n + 1))
        &&& bit_of(mgt | (meq1 & (!w1) & x), p) == (lane_value(ws, p, n + 1) > const_prefix(c1, k, n + 1))
        &&& bit_of(meq2 & !(x ^ w2), p) == (lane_value(ws, p, n + 1) == const_prefix(c2, k, n + 1))
        &&& bit_of(mlt | (meq2 & w2 & (!x)), p) == (lane_value(ws, p, n + 1) < const_prefix(c2, k, n + 1))
    } by {
        lemma_compare_step_bits(mgt, mlt, meq1, meq2, x, w1, w2, p);
        lemma_ones_bits(p);
        lemma_zero_bits(p);
        assert(bit_of(meq1, p) == (lane_value(ws, p, n) == const_prefix(c1, k, n)));
        assert((k - (n + 1)) as u32 == (k - 1 - n) as u32);
        lemma_digit_step(lane_value(ws, p, n), const_prefix(c1, k, n), bit_value(x, p), bit_value(c1, (k - 1 - n) as u32));
        lemma_digit_step(lane_value(ws, p, n), const_prefix(c2, k, n), bit_value(x, p), bit_value(c2, (k - 1 - n) as u32));
    }
}

/// When the comparison stops early because every lane already differs from
/// both constants, the masks still describe the comparison of all `m` words.
pub proof fn lemma_masks_decided(
    mgt: u32,
    mlt: u32,
    ws: Seq<u32>,
    n: nat,
    c1: u32,
    c2: u32,
    k: int,
)
    requires
        masks_agree(mgt, mlt, 0u32, 0u32, ws, n, c1, c2, k),
        n <= ws.len(),
    ensures
        forall|p: u32| p < 32 ==> #[trigger] bit_of(mgt & mlt, p) == lane_in_range(ws, p, c1, c2, k),
{
    assert forall|p: u32| p < 32 implies #[trigger] bit_of(mgt & mlt, p) == lane_in_range(ws, p, c1, c2, k) by {
        lemma_zero_bits(p);
        lemma_and_bits(mgt, mlt, p);
        assert(bit_of(0u32, p) == (lane_value(ws, p, n) == const_prefix(c1, k, n)));
        assert(bit_of(0u32, p) == (lane_value(ws, p, n) == const_prefix(c2, k, n)));
        lemma_decided_lane(ws, p, c1, k, n, ws.len());
        lemma_decided_lane(ws, p, c2, k, n, ws.len());
    }
}

/// After all words are read the and of the greater and less masks is the
/// range test.
pub proof fn lemma_masks_finished(
    mgt: u32,
    mlt: u32,
    meq1: u32,
    meq2: u32,
    ws: Seq<u32>,
    c1: u32,
    c2: u32,
    k: int,
)
    requires
        masks_agree(mgt, mlt, meq1, meq2, ws, ws.len(), c1, c2, k),
    ensures
        forall|p: u32| p < 32 ==> #[trigger] bit_of(mgt & mlt, p) == lane_in_range(ws, p, c1, c2, k),
{
    assert forall|p: u32| p < 32 implies #[trigger] bit_of(mgt & mlt, p) == lane_in_range(ws, p, c1, c2, k) by {
        lemma_and_bits(mgt, mlt, p);
        assert(bit_of(meq1, p) == (lane_value(ws, p, ws.len()) == const_prefix(c1, k, ws.len())));
    }
}

/// Lane values read only the first `n` words.
pub proof fn lemma_lane_value_prefix(ws1: Seq<u32>, ws2: Seq<u32>, p: u32, n: nat)
    requires
        n <= ws1.len(),
        n <= ws2.len(),
        ws1.subrange(0, n as int) == ws2.subrange(0, n as int),
    ensures
        lane_value(ws1, p, n) == lane_value(ws2, p, n),
    decreases n,
{
    if n > 0 {
        assert(ws1[n - 1] == ws1.subrange(0, n as int)[n - 1]);
        assert(ws2[n - 1] == ws2.subrange(0, n as int)[n - 1]);
        assert(ws1.subrange(0, n - 1) =~= ws1.subrange(0, n as int).subrange(0, n - 1));
        assert(ws2.subrange(0, n - 1) =~= ws2.subrange(0, n as int).subrange(0, n - 1));
        lemma_lane_value_prefix(ws1, ws2, p, (n - 1) as nat);
    }
}

/// Masks that agree with some words agree with any words starting the same.
pub proof fn lemma_masks_prefix(
    mgt: u32,
    mlt: u32,
    meq1: u32,
    meq2: u32,
    ws1: Seq<u32>,
    ws2: Seq<u32>,
    n: nat,
    c1: u32,
    c2: u32,
    k: int,
)
    requires
        masks_agree(mgt, mlt, meq1, meq2, ws1, n, c1, c2, k),
        n <= ws1.len(),
        n <= ws2.len(),
        ws1.subrange(0, n as int) == ws2.subrange(0, n as int),
    ensures
        masks_agree(mgt, mlt, meq1, meq2, ws2, n, c1, c2, k),
{
    assert forall|p: u32| p < 32 implies {
        &&& #[trigger] bit_of(meq1, p) == (lane_value(ws2, p, n) == const_prefix(c1, k, n))
        &&& bit_of(mgt, p) == (lane_value(ws2, p, n) > const_prefix(c1, k, n))
        &&& bit_of(meq2, p) == (lane_value(ws2, p, n) == const_prefix(c2, k, n))
        &&& bit_of(mlt, p) == (lane_value(ws2, p, n) < const_prefix(c2, k, n))
    } by {
        lemma_lane_value_prefix(ws1, ws2, p, n);
        assert(bit_of(meq1, p) == (lane_value(ws1, p, n) == const_prefix(c1, k, n)));
    }
}

/// The four facts the masks state about lane `p`.
pub proof fn lemma_masks_at(
    mgt: u32,
    mlt: u32,
    meq1: u32,
    meq2: u32,
    ws: Seq<u32>,
    n: nat,
    c1: u32,
    c2: u32,
    k: int,
    p: u32,
)
    requires
        masks_agree(mgt, mlt, meq1, meq2, ws, n, c1, c2, k),
        p < 32,
    ensures
        bit_of(meq1, p) == (lane_value(ws, p, n) == const_prefix(c1, k, n)),
        bit_of(mgt, p) == (lane_value(ws, p, n) > const_prefix(c1, k, n)),
        bit_of(meq2, p) == (lane_value(ws, p, n) == const_prefix(c2, k, n)),
        bit_of(mlt, p) == (lane_value(ws, p, n) < const_prefix(c2, k, n)),
{
}

/// Every lane of `ws`'s first `n` words differs from the constant `c`.
pub open spec fn lane_decided(ws: Seq<u32>, c: u32, k: int, n: nat) -> bool {
    forall|p: u32| p < 32 ==> #[trigger] lane_value(ws, p, n) != const_prefix(c, k, n)
}

/// An equality mask is zero exactly when its lane is decided.
pub proof fn lemma_zero_mask_decided(meq: u32, ws: Seq<u32>, c: u32, k: int, n: nat)
    requires
        forall|p: u32| p < 32 ==> #[trigger] bit_of(meq, p) == (lane_value(ws, p, n) == const_prefix(c, k, n)),
    ensures
        (meq == 0) == lane_decided(ws, c, k, n),
{
    lemma_zero_iff_no_bits(meq);
    if meq == 0 {
        assert forall|p: u32| p < 32 implies #[trigger] lane_value(ws, p, n) != const_prefix(c, k, n) by {
            assert(!bit_of(meq, p));
        }
    } else {
        let p = choose|p: u32| p < 32 && #[trigger] bit_of(meq, p);
        assert(lane_value(ws, p, n) == const_prefix(c, k, n));
    }
}

/// The broadcast words of the `k` bits of `c`, most significant first, in a
/// table of 32 entries; entries from `k` on are zero.
pub fn constant_masks(c: u32, k: usize) -> (arr: Vec<u32>)
    requires
        k <= 32,
    ensures
        arr.len() == 32,
        forall|idx: int| 0 <= idx < 32 ==> #[trigger] arr[idx] == (if idx < k { bit_mask_word(c, k as int, idx) } else { 0u32 }),
{
    let mut arr: Vec<u32> = Vec::new();
    let mut j: usize = 0;
    while j < 32
        invariant
            j <= 32,
            arr.len() == j,
            forall|idx: int| 0 <= idx < j ==> #[trigger] arr[idx] == 0u32,
        decreases 32 - j,
    {
        arr.push(0);
        j += 1;
    }
    let mut i: usize = 0;
    while i < k
        invariant
            i <= k <= 32,
            arr.len() == 32,
            forall|idx: int| 0 <= idx < 32 ==> #[trigger] arr[idx] == (if k - i <= idx < k { bit_mask_word(c, k as int, idx) } else { 0u32 }),
        decreases k - i,
    {
        proof {
            lemma_single_bit_mask(c, i as u32);
        }
        if (c & (1u32 << (i as u32))) > 0 {
            arr[k - i - 1] = !0u32;
        } else {
            arr[k - i - 1] = 0;
        }
        proof {
            assert((k - 1 - (k - i - 1)) as u32 == i as u32);
        }
        i += 1;
    }
    arr
}

} // verus!

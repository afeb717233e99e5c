//! Several segments compared side by side, one segment per lane of a
//! vector of words, as the vectorised scanners do it.
//!
//! Lane `j` of a block starting at segment `s` reads, in every bit group,
//! the words of segment `s + j`. A bit group is read only as far as the
//! words of the last lane are present in it; the comparison moves on to the
//! next bit group after that.
use vstd::prelude::*;
use crate::bits::bit_of;
use crate::bitgroup::BitGroup;
use crate::bitvec_ops::{append_word_bits, bits_of, bitvec_new, word_bits};
use bit_vec::BitVec;
use crate::compare::{
    bit_mask_word, const_prefix, constant_masks, lane_in_range, lane_value, lane_decided, lemma_lane_value_prefix, lemma_masks_at, lemma_masks_prefix, lemma_zero_mask_decided, lemma_masks_decided, lemma_masks_finished, lemma_masks_start,
    lemma_masks_step, masks_agree,
};

verus! {

/// How many words of a bit group holding `avail` words a block of `lanes`
/// lanes starting at word `start` reads: as long as the last lane's word is
/// present, and at most `b`.
pub open spec fn run_count(avail: int, start: int, lanes: int, b: int) -> int {
    let left = avail - start - (lanes - 1) * b;
    if left <= 0 { 0 } else if left >= b { b } else { left }
}

/// The words lane `j` of the block starting at segment `s` reads from the
/// first `count` bit groups, in order.
pub open spec fn lane_words(groups: Seq<Seq<u32>>, b: int, lanes: int, s: int, j: int, count: nat) -> Seq<u32>
    decreases count,
{
    if count == 0 {
        Seq::empty()
    } else {
        let g = count - 1;
        lane_words(groups, b, lanes, s, j, (count - 1) as nat) + Seq::new(
            run_count(groups[g].len() as int, s * b, lanes, b) as nat,
            |t: int| groups[g][s * b + t + j * b],
        )
    }
}

/// The words of fewer bit groups come first among those of more.
pub proof fn lemma_lane_words_prefix(groups: Seq<Seq<u32>>, b: int, lanes: int, s: int, j: int, m: nat, n: nat)
    requires
        m <= n,
    ensures
        lane_words(groups, b, lanes, s, j, m) == lane_words(groups, b, lanes, s, j, n).subrange(
            0,
            lane_words(groups, b, lanes, s, j, m).len() as int,
        ),
        lane_words(groups, b, lanes, s, j, m).len() <= lane_words(groups, b, lanes, s, j, n).len(),
    decreases n - m,
{
    if m < n {
        lemma_lane_words_prefix(groups, b, lanes, s, j, m, (n - 1) as nat);
        let a = lane_words(groups, b, lanes, s, j, m);
        let c = lane_words(groups, b, lanes, s, j, (n - 1) as nat);
        let d = lane_words(groups, b, lanes, s, j, n);
        assert(d.subrange(0, c.len() as int) =~= c);
        assert(d.subrange(0, a.len() as int) =~= c.subrange(0, a.len() as int));
    }
}

/// Every lane reads the same number of words, at most `b` per group.
pub proof fn lemma_lane_words_len(groups: Seq<Seq<u32>>, b: int, lanes: int, s: int, j: int, n: nat)
    requires
        b >= 0,
    ensures
        lane_words(groups, b, lanes, s, j, n).len() == lane_words(groups, b, lanes, s, 0, n).len(),
        lane_words(groups, b, lanes, s, j, n).len() <= n * b,
    decreases n,
{
    if n > 0 {
        lemma_lane_words_len(groups, b, lanes, s, j, (n - 1) as nat);
        assert((n - 1) * b + b == n * b) by (nonlinear_arith);
    }
}

/// A vector of `count` copies of `v`.
fn splat(v: u32, count: usize) -> (r: Vec<u32>)
    ensures
        r.len() == count,
        forall|j: int| 0 <= j < count ==> #[trigger] r[j] == v,
{
    let mut r: Vec<u32> = Vec::new();
    let mut j: usize = 0;
    while j < count
        invariant
            j <= count,
            r.len() == j,
            forall|x: int| 0 <= x < j ==> #[trigger] r[x] == v,
        decreases count - j,
    {
        r.push(v);
        j += 1;
    }
    r
}

/// Every lane is zero.
fn all_zero(v: &Vec<u32>) -> (r: bool)
    ensures
        r == (forall|j: int| 0 <= j < v.len() ==> #[trigger] v[j] == 0u32),
{
    let mut j: usize = 0;
    while j < v.len()
        invariant
            j <= v.len(),
            forall|x: int| 0 <= x < j ==> #[trigger] v[x] == 0u32,
        decreases v.len() - j,
    {
        if v[j] != 0 {
            return false;
        }
        j += 1;
    }
    true
}

/// The bit groups laid end to end, each seen from its start to the end of
/// the data (empty when it would start past the end).
pub open spec fn flat_tails(data: Seq<u32>, h: int, count: int) -> Seq<Seq<u32>> {
    Seq::new(count as nat, |g: int| if g * h <= data.len() { data.subrange(g * h, data.len() as int) } else { Seq::empty() })
}

/// The words of a list of word vectors.
pub open spec fn nested_views(groups: Seq<Vec<u32>>) -> Seq<Seq<u32>> {
    Seq::new(groups.len(), |g: int| groups[g]@)
}

/// Compares the block of `lanes` segments starting at segment `s` with `c1`
/// and `c2`, all lanes at once, reading the bit groups of `input`. After a
/// bit group, the comparison stops once every lane already differs from
/// both constants. Lane `j` of the result marks the values of segment
/// `s + j` strictly between the constants, as far as the block read them.
pub fn compare_block(
    input: &Vec<Vec<u32>>,
    s: usize,
    b: usize,
    k: usize,
    lanes: usize,
    c1: u32,
    c2: u32,
    c1_arr: &Vec<u32>,
    c2_arr: &Vec<u32>,
) -> (m_result: Vec<u32>)
    requires
        b > 0,
        k <= 32,
        lanes >= 1,
        block_reads_fit(nested_views(input@), input.len() as int, b as int, lanes as int, s as int, c1, c2, k as int, 0, (k / b) as nat),
        (s + lanes) * b + k <= usize::MAX,
        c1_arr.len() == 32,
        c2_arr.len() == 32,
        forall|idx: int| 0 <= idx < k ==> #[trigger] c1_arr[idx] == bit_mask_word(c1, k as int, idx),
        forall|idx: int| 0 <= idx < k ==> #[trigger] c2_arr[idx] == bit_mask_word(c2, k as int, idx),
    ensures
        m_result.len() == lanes,
        forall|j: int, p: u32| 0 <= j < lanes && p < 32 ==> #[trigger] bit_of(m_result[j], p) == lane_in_range(
            lane_words(nested_views(input@), b as int, lanes as int, s as int, j, (k / b) as nat),
            p,
            c1,
            c2,
            k as int,
        ),
{
    let ghost gv = nested_views(input@);
    let k_b = k / b;
    let ghost wss = Seq::new(lanes as nat, |j: int| lane_words(gv, b as int, lanes as int, s as int, j, k_b as nat));
    let mut mlt = splat(0, lanes);
    let mut mgt = splat(0, lanes);
    let mut meq1 = splat(!0u32, lanes);
    let mut meq2 = splat(!0u32, lanes);
    let mut index: usize = 0;
    proof {
        assert forall|j: int| 0 <= j < lanes implies masks_agree(#[trigger] mgt[j], mlt[j], meq1[j], meq2[j], wss[j], 0, c1, c2, k as int) by {
            lemma_masks_start(wss[j], c1, c2, k as int);
        }
        assert(k_b * b <= k) by (nonlinear_arith)
            requires
                k_b == k / b,
                b > 0,
        ;
        assert(k_b >= 1 ==> b <= k) by (nonlinear_arith)
            requires
                k_b == k / b,
                b > 0,
                k_b * b <= k,
        ;
        assert((s + 1) * b <= (s + lanes) * b) by (nonlinear_arith)
            requires
                lanes >= 1,
                b > 0,
        ;
        assert(s * b + b == (s + 1) * b) by (nonlinear_arith);
        assert(s * b + (lanes - 1) * b + b == (s + lanes) * b) by (nonlinear_arith);
    }
    let mut g: usize = 0;
    while g < k_b && !(all_zero(&meq1) && all_zero(&meq2))
        invariant
            g <= k_b,
            k_b == k / b,
            k_b * b <= k,
            k_b >= 1 ==> b <= k,
            b > 0,
            k <= 32,
            lanes >= 1,
            block_reads_fit(gv, input.len() as int, b as int, lanes as int, s as int, c1, c2, k as int, g as nat, k_b as nat),
            gv == nested_views(input@),
            s * b + b <= (s + lanes) * b,
            s * b + (lanes - 1) * b + b == (s + lanes) * b,
            (s + lanes) * b + k <= usize::MAX,
            wss.len() == lanes,
            forall|j: int| 0 <= j < lanes ==> #[trigger] wss[j] == lane_words(gv, b as int, lanes as int, s as int, j, k_b as nat),
            mgt.len() == lanes,
            mlt.len() == lanes,
            meq1.len() == lanes,
            meq2.len() == lanes,
            index == lane_words(gv, b as int, lanes as int, s as int, 0, g as nat).len(),
            c1_arr.len() == 32,
            c2_arr.len() == 32,
            forall|idx: int| 0 <= idx < k ==> #[trigger] c1_arr[idx] == bit_mask_word(c1, k as int, idx),
            forall|idx: int| 0 <= idx < k ==> #[trigger] c2_arr[idx] == bit_mask_word(c2, k as int, idx),
            forall|j: int| 0 <= j < lanes ==> masks_agree(#[trigger] mgt[j], mlt[j], meq1[j], meq2[j], wss[j], index as nat, c1, c2, k as int),
        decreases k_b - g,
    {
        proof {
            lemma_lane_words_len(gv, b as int, lanes as int, s as int, 0, g as nat);
            lemma_all_zero_test(mgt@, mlt@, meq1@, meq2@, wss, gv, b as int, lanes as int, s as int, c1, c2, k as int, g as nat, k_b as nat, index as nat);
        }
        let start = s * b;
        let end = if s * b + b < s * b + k { s * b + b } else { s * b + k };
        let group = &input[g];
        let ghost cnt = run_count(group.len() as int, start as int, lanes as int, b as int);
        let ghost base = index as int;
        proof {
            lemma_lane_words_len(gv, b as int, lanes as int, s as int, 0, (g + 1) as nat);
            assert((g + 1) * b <= k_b * b) by (nonlinear_arith)
                requires
                    g < k_b,
                    b > 0,
            ;
            assert forall|j: int| 0 <= j < lanes implies {
                &&& #[trigger] lane_words(gv, b as int, lanes as int, s as int, j, (g + 1) as nat) == wss[j].subrange(0, base + cnt)
                &&& lane_words(gv, b as int, lanes as int, s as int, j, (g + 1) as nat).len() == base + cnt
                &&& wss[j].len() >= base + cnt
                &&& lane_words(gv, b as int, lanes as int, s as int, j, g as nat).len() == base
            } by {
                lemma_lane_words_prefix(gv, b as int, lanes as int, s as int, j, (g + 1) as nat, k_b as nat);
                lemma_lane_words_len(gv, b as int, lanes as int, s as int, j, (g + 1) as nat);
                lemma_lane_words_len(gv, b as int, lanes as int, s as int, j, g as nat);
            }
        }
        let mut i = start;
        while i < end && !(i + (lanes - 1) * b >= group.len())
            invariant
                start == s * b,
                end == start + b,
                start <= i <= end,
                i - start <= cnt,
                cnt == run_count(group.len() as int, start as int, lanes as int, b as int),
                group@ == gv[g as int],
                g < k_b,
                b > 0,
                k <= 32,
                lanes >= 1,
                index == base + (i - start),
                base + cnt <= k_b * b,
                k_b * b <= k,
                s * b + (lanes - 1) * b + b == (s + lanes) * b,
                (s + lanes) * b + k <= usize::MAX,
                wss.len() == lanes,
                forall|j: int| 0 <= j < lanes ==> {
                    &&& #[trigger] lane_words(gv, b as int, lanes as int, s as int, j, (g + 1) as nat) == wss[j].subrange(0, base + cnt)
                    &&& lane_words(gv, b as int, lanes as int, s as int, j, (g + 1) as nat).len() == base + cnt
                    &&& lane_words(gv, b as int, lanes as int, s as int, j, g as nat).len() == base
                    &&& wss[j].len() >= base + cnt
                },
                g < gv.len(),
                mgt.len() == lanes,
                mlt.len() == lanes,
                meq1.len() == lanes,
                meq2.len() == lanes,
                c1_arr.len() == 32,
                c2_arr.len() == 32,
                forall|idx: int| 0 <= idx < k ==> #[trigger] c1_arr[idx] == bit_mask_word(c1, k as int, idx),
                forall|idx: int| 0 <= idx < k ==> #[trigger] c2_arr[idx] == bit_mask_word(c2, k as int, idx),
                forall|j: int| 0 <= j < lanes ==> masks_agree(#[trigger] mgt[j], mlt[j], meq1[j], meq2[j], wss[j], index as nat, c1, c2, k as int),
            decreases end - i,
        {
            let c1i = c1_arr[index];
            let c2i = c2_arr[index];
            let ghost t = i - start;
            let mut j: usize = 0;
            while j < lanes
                invariant
                    0 <= t < cnt,
                    t == i - start,
                    start == s * b,
                    i + (lanes - 1) * b < group.len(),
                    group@ == gv[g as int],
                    index == base + t,
                    base + cnt <= k,
                    k <= 32,
                    c1i == bit_mask_word(c1, k as int, index as int),
                    c2i == bit_mask_word(c2, k as int, index as int),
                    wss.len() == lanes,
                    forall|x: int| 0 <= x < lanes ==> {
                        &&& #[trigger] lane_words(gv, b as int, lanes as int, s as int, x, (g + 1) as nat) == wss[x].subrange(0, base + cnt)
                        &&& lane_words(gv, b as int, lanes as int, s as int, x, (g + 1) as nat).len() == base + cnt
                        &&& lane_words(gv, b as int, lanes as int, s as int, x, g as nat).len() == base
                        &&& wss[x].len() >= base + cnt
                    },
                    g < gv.len(),
                    j <= lanes,
                    mgt.len() == lanes,
                    mlt.len() == lanes,
                    meq1.len() == lanes,
                    meq2.len() == lanes,
                    forall|x: int| 0 <= x < j ==> masks_agree(#[trigger] mgt[x], mlt[x], meq1[x], meq2[x], wss[x], (index + 1) as nat, c1, c2, k as int),
                    forall|x: int| j <= x < lanes ==> masks_agree(#[trigger] mgt[x], mlt[x], meq1[x], meq2[x], wss[x], index as nat, c1, c2, k as int),
                decreases lanes - j,
            {
                proof {
                    assert(j * b <= (lanes - 1) * b) by (nonlinear_arith)
                        requires
                            j < lanes,
                            b > 0,
                    ;
                    let lw = lane_words(gv, b as int, lanes as int, s as int, j as int, (g + 1) as nat);
                    assert(lw[base + t] == gv[g as int][s * b + t + j * b]);
                    assert(wss[j as int][index as int] == lw[base + t]);
                    lemma_masks_step(mgt[j as int], mlt[j as int], meq1[j as int], meq2[j as int], wss[j as int], index as nat, c1, c2, k as int);
                }
                let x = group[i + j * b];
                proof {
                    assert(i + j * b == s * b + t + j * b);
                    assert(x == group@[i + j * b]);
                    assert(x == gv[g as int][s * b + t + j * b]);
                    assert(x == wss[j as int][index as int]);
                }
                let ghost (om, ol, oe1, oe2) = (mgt@, mlt@, meq1@, meq2@);
                let new_mgt = mgt[j] | (meq1[j] & (!c1i) & x);
                let new_mlt = mlt[j] | (meq2[j] & c2i & (!x));
                let new_meq1 = meq1[j] & !(x ^ c1i);
                let new_meq2 = meq2[j] & !(x ^ c2i);
                mgt.set(j, new_mgt);
                mlt.set(j, new_mlt);
                meq1.set(j, new_meq1);
                meq2.set(j, new_meq2);
                proof {
                    assert forall|y: int| 0 <= y < j + 1 implies masks_agree(#[trigger] mgt[y], mlt[y], meq1[y], meq2[y], wss[y], (index + 1) as nat, c1, c2, k as int) by {
                        if y < j {
                            assert(mgt[y] == om[y] && mlt[y] == ol[y] && meq1[y] == oe1[y] && meq2[y] == oe2[y]);
                        }
                    }
                    assert forall|y: int| j + 1 <= y < lanes implies masks_agree(#[trigger] mgt[y], mlt[y], meq1[y], meq2[y], wss[y], index as nat, c1, c2, k as int) by {
                        assert(mgt[y] == om[y] && mlt[y] == ol[y] && meq1[y] == oe1[y] && meq2[y] == oe2[y]);
                    }
                }
                j += 1;
            }
            index = index + 1;
            i = i + 1;
        }
        proof {
            assert(i - start == cnt);
            assert(index == lane_words(gv, b as int, lanes as int, s as int, 0, (g + 1) as nat).len());
        }
        g += 1;
    }
    let mut m_result: Vec<u32> = Vec::new();
    let mut j: usize = 0;
    proof {
        lemma_lane_words_len(gv, b as int, lanes as int, s as int, 0, g as nat);
        lemma_lane_words_prefix(gv, b as int, lanes as int, s as int, 0, g as nat, k_b as nat);
        assert forall|x: int| 0 <= x < lanes implies #[trigger] wss[x].len() == wss[0].len() by {
            lemma_lane_words_len(gv, b as int, lanes as int, s as int, x, k_b as nat);
        }
    }
    while j < lanes
        invariant
            j <= lanes,
            m_result.len() == j,
            mgt.len() == lanes,
            mlt.len() == lanes,
            meq1.len() == lanes,
            meq2.len() == lanes,
            wss.len() == lanes,
            g == k_b || ((forall|x: int| 0 <= x < lanes ==> #[trigger] meq1[x] == 0u32) && (forall|x: int| 0 <= x < lanes ==> #[trigger] meq2[x] == 0u32)),
            g == k_b ==> index == wss[0].len(),
            index <= wss[0].len(),
            forall|x: int| 0 <= x < lanes ==> #[trigger] wss[x].len() == wss[0].len(),
            forall|x: int| 0 <= x < lanes ==> masks_agree(#[trigger] mgt[x], mlt[x], meq1[x], meq2[x], wss[x], index as nat, c1, c2, k as int),
            forall|x: int, p: u32| 0 <= x < j && p < 32 ==> #[trigger] bit_of(m_result[x], p) == lane_in_range(wss[x], p, c1, c2, k as int),
        decreases lanes - j,
    {
        proof {
            if meq1[j as int] == 0u32 && meq2[j as int] == 0u32 {
                lemma_masks_decided(mgt[j as int], mlt[j as int], wss[j as int], index as nat, c1, c2, k as int);
            } else {
                lemma_masks_finished(mgt[j as int], mlt[j as int], meq1[j as int], meq2[j as int], wss[j as int], c1, c2, k as int);
            }
        }
        m_result.push(mgt[j] & mlt[j]);
        j += 1;
    }
    m_result
}


/// Before bit group `g`, the first half of the lanes are each still equal to
/// `c1` or to `c2` in some lane position, and the second half are each
/// decided against both.
pub open spec fn split_stop_at(groups: Seq<Seq<u32>>, b: int, lanes: int, s: int, c1: u32, c2: u32, k: int, g: nat) -> bool {
    let n = lane_words(groups, b, lanes, s, 0, g).len();
    &&& forall|j: int| 0 <= j < lanes / 2 ==> {
        &&& !lane_decided(#[trigger] lane_words(groups, b, lanes, s, j, g), c1, k, n)
        &&& !lane_decided(lane_words(groups, b, lanes, s, j, g), c2, k, n)
    }
    &&& forall|j: int| lanes / 2 <= j < lanes ==> {
        &&& lane_decided(#[trigger] lane_words(groups, b, lanes, s, j, g), c1, k, n)
        &&& lane_decided(lane_words(groups, b, lanes, s, j, g), c2, k, n)
    }
}

/// The bit group, from `g` on, before which the split stop test first holds,
/// or `count` when it never does.
pub open spec fn split_stop_group(groups: Seq<Seq<u32>>, b: int, lanes: int, s: int, c1: u32, c2: u32, k: int, g: nat, count: nat) -> nat
    decreases count - g,
{
    if g >= count {
        count
    } else if split_stop_at(groups, b, lanes, s, c1, c2, k, g) {
        g
    } else {
        split_stop_group(groups, b, lanes, s, c1, c2, k, (g + 1) as nat, count)
    }
}

/// An equality mask of a lane is zero exactly when the lane, over the bit
/// groups read so far, is decided against its constant.
proof fn lemma_masks_zero_iff_decided(
    mgt: Seq<u32>,
    mlt: Seq<u32>,
    meq1: Seq<u32>,
    meq2: Seq<u32>,
    wss: Seq<Seq<u32>>,
    groups: Seq<Seq<u32>>,
    b: int,
    lanes: int,
    s: int,
    c1: u32,
    c2: u32,
    k: int,
    g: nat,
    count: nat,
    n: nat,
)
    requires
        b > 0,
        g <= count,
        meq1.len() == lanes,
        meq2.len() == lanes,
        wss.len() == lanes,
        n == lane_words(groups, b, lanes, s, 0, g).len(),
        forall|j: int| 0 <= j < lanes ==> #[trigger] wss[j] == lane_words(groups, b, lanes, s, j, count),
        mgt.len() == lanes,
        mlt.len() == lanes,
        forall|j: int| 0 <= j < lanes ==> masks_agree(#[trigger] mgt[j], mlt[j], meq1[j], meq2[j], wss[j], n, c1, c2, k),
    ensures
        forall|j: int| #![trigger meq1[j]] #![trigger meq2[j]] #![trigger lane_words(groups, b, lanes, s, j, g)] 0 <= j < lanes ==>
            (meq1[j] == 0u32) == lane_decided(lane_words(groups, b, lanes, s, j, g), c1, k, n)
            && (meq2[j] == 0u32) == lane_decided(lane_words(groups, b, lanes, s, j, g), c2, k, n),
{
    assert forall|j: int| #![trigger meq1[j]] #![trigger meq2[j]] #![trigger lane_words(groups, b, lanes, s, j, g)] 0 <= j < lanes implies
        (meq1[j] == 0u32) == lane_decided(lane_words(groups, b, lanes, s, j, g), c1, k, n)
        && (meq2[j] == 0u32) == lane_decided(lane_words(groups, b, lanes, s, j, g), c2, k, n) by {
        let lw = lane_words(groups, b, lanes, s, j, g);
        assert(masks_agree(mgt[j], mlt[j], meq1[j], meq2[j], wss[j], n, c1, c2, k));
        lemma_lane_words_prefix(groups, b, lanes, s, j, g, count);
        lemma_lane_words_len(groups, b, lanes, s, j, g);
        assert(lw.len() == n);
        assert(lw.subrange(0, n as int) =~= lw);
        assert(wss[j].subrange(0, n as int) == lw);
        assert forall|p: u32| p < 32 implies #[trigger] bit_of(meq1[j], p) == (lane_value(lw, p, n) == const_prefix(c1, k, n)) by {
            lemma_masks_at(mgt[j], mlt[j], meq1[j], meq2[j], wss[j], n, c1, c2, k, p);
            lemma_lane_value_prefix(wss[j], lw, p, n);
        }
        assert forall|p: u32| p < 32 implies #[trigger] bit_of(meq2[j], p) == (lane_value(lw, p, n) == const_prefix(c2, k, n)) by {
            lemma_masks_at(mgt[j], mlt[j], meq1[j], meq2[j], wss[j], n, c1, c2, k, p);
            lemma_lane_value_prefix(wss[j], lw, p, n);
        }
        lemma_zero_mask_decided(meq1[j], lw, c1, k, n);
        lemma_zero_mask_decided(meq2[j], lw, c2, k, n);
    }
}

/// The split stop test on the equality masks is `split_stop_at`.
proof fn lemma_stop_test(
    mgt: Seq<u32>,
    mlt: Seq<u32>,
    meq1: Seq<u32>,
    meq2: Seq<u32>,
    wss: Seq<Seq<u32>>,
    groups: Seq<Seq<u32>>,
    b: int,
    lanes: int,
    s: int,
    c1: u32,
    c2: u32,
    k: int,
    g: nat,
    count: nat,
    n: nat,
)
    requires
        b > 0,
        g <= count,
        meq1.len() == lanes,
        meq2.len() == lanes,
        wss.len() == lanes,
        n == lane_words(groups, b, lanes, s, 0, g).len(),
        forall|j: int| 0 <= j < lanes ==> #[trigger] wss[j] == lane_words(groups, b, lanes, s, j, count),
        mgt.len() == lanes,
        mlt.len() == lanes,
        forall|j: int| 0 <= j < lanes ==> masks_agree(#[trigger] mgt[j], mlt[j], meq1[j], meq2[j], wss[j], n, c1, c2, k),
    ensures
        ((forall|j: int| 0 <= j < lanes / 2 ==> #[trigger] meq1[j] != 0u32) && (forall|j: int| lanes / 2 <= j < lanes ==> #[trigger] meq1[j] == 0u32)
            && (forall|j: int| 0 <= j < lanes / 2 ==> #[trigger] meq2[j] != 0u32) && (forall|j: int| lanes / 2 <= j < lanes ==> #[trigger] meq2[j] == 0u32))
            == split_stop_at(groups, b, lanes, s, c1, c2, k, g),
{
    lemma_masks_zero_iff_decided(mgt, mlt, meq1, meq2, wss, groups, b, lanes, s, c1, c2, k, g, count, n);
}

/// Every lane, over the bit groups read so far, is decided against both
/// constants.
pub open spec fn block_decided(groups: Seq<Seq<u32>>, b: int, lanes: int, s: int, c1: u32, c2: u32, k: int, g: nat) -> bool {
    let n = lane_words(groups, b, lanes, s, 0, g).len();
    forall|j: int| 0 <= j < lanes ==> {
        &&& lane_decided(#[trigger] lane_words(groups, b, lanes, s, j, g), c1, k, n)
        &&& lane_decided(lane_words(groups, b, lanes, s, j, g), c2, k, n)
    }
}

/// The block starting at segment `s`, compared from bit group `g` on, reads
/// a bit group only while some lane is undecided, and every bit group it
/// reads exists.
pub open spec fn block_reads_fit(groups: Seq<Seq<u32>>, group_count: int, b: int, lanes: int, s: int, c1: u32, c2: u32, k: int, g: nat, count: nat) -> bool
    decreases count - g,
{
    if g >= count {
        true
    } else if block_decided(groups, b, lanes, s, c1, c2, k, g) {
        true
    } else {
        g < group_count && block_reads_fit(groups, group_count, b, lanes, s, c1, c2, k, g + 1, count)
    }
}

/// With at least `count` bit groups, every block's reads fit.
pub proof fn lemma_block_reads_fit(groups: Seq<Seq<u32>>, group_count: int, b: int, lanes: int, s: int, c1: u32, c2: u32, k: int, g: nat, count: nat)
    requires
        count <= group_count,
    ensures
        block_reads_fit(groups, group_count, b, lanes, s, c1, c2, k, g, count),
    decreases count - g,
{
    if g < count {
        lemma_block_reads_fit(groups, group_count, b, lanes, s, c1, c2, k, g + 1, count);
    }
}

/// The all-zero stop test on the equality masks is `block_decided`.
proof fn lemma_all_zero_test(
    mgt: Seq<u32>,
    mlt: Seq<u32>,
    meq1: Seq<u32>,
    meq2: Seq<u32>,
    wss: Seq<Seq<u32>>,
    groups: Seq<Seq<u32>>,
    b: int,
    lanes: int,
    s: int,
    c1: u32,
    c2: u32,
    k: int,
    g: nat,
    count: nat,
    n: nat,
)
    requires
        b > 0,
        g <= count,
        meq1.len() == lanes,
        meq2.len() == lanes,
        wss.len() == lanes,
        n == lane_words(groups, b, lanes, s, 0, g).len(),
        forall|j: int| 0 <= j < lanes ==> #[trigger] wss[j] == lane_words(groups, b, lanes, s, j, count),
        mgt.len() == lanes,
        mlt.len() == lanes,
        forall|j: int| 0 <= j < lanes ==> masks_agree(#[trigger] mgt[j], mlt[j], meq1[j], meq2[j], wss[j], n, c1, c2, k),
    ensures
        ((forall|j: int| 0 <= j < lanes ==> #[trigger] meq1[j] == 0u32) && (forall|j: int| 0 <= j < lanes ==> #[trigger] meq2[j] == 0u32))
            == block_decided(groups, b, lanes, s, c1, c2, k, g),
{
    lemma_masks_zero_iff_decided(mgt, mlt, meq1, meq2, wss, groups, b, lanes, s, c1, c2, k, g, count, n);
}

/// Every lane of the second half, and none of the first half, is zero.
fn zero_in_second_half_only(v: &Vec<u32>) -> (r: bool)
    ensures
        r == ((forall|j: int| 0 <= j < v.len() / 2 ==> #[trigger] v[j] != 0u32) && (forall|j: int| v.len() / 2 <= j < v.len() ==> #[trigger] v[j] == 0u32)),
{
    let half = v.len() / 2;
    let mut j: usize = 0;
    while j < v.len()
        invariant
            j <= v.len(),
            half == v.len() / 2,
            forall|x: int| 0 <= x < j && x < half ==> #[trigger] v[x] != 0u32,
            forall|x: int| half <= x < j ==> #[trigger] v[x] == 0u32,
        decreases v.len() - j,
    {
        if j < half {
            if v[j] == 0 {
                return false;
            }
        } else if v[j] != 0 {
            return false;
        }
        j += 1;
    }
    true
}

/// Compares the block of `lanes` segments starting at segment `s` with `c1`
/// and `c2`, all lanes at once, reading the bit groups laid end to end in
/// `input_arr`, bit group `g` starting at `g * h`. After a
/// bit group, the comparison stops once every lane already differs from
/// both constants. Lane `j` of the result marks the values of segment
/// `s + j` strictly between the constants, as far as the block read them.
pub fn compare_block_flat(
    input_arr: &[u32],
    h: usize,
    s: usize,
    b: usize,
    k: usize,
    lanes: usize,
    c1: u32,
    c2: u32,
    c1_arr: &Vec<u32>,
    c2_arr: &Vec<u32>,
) -> (m_result: Vec<u32>)
    requires
        b > 0,
        k <= 32,
        lanes >= 1,
        (k / b) * h + (s + lanes) * b + k <= usize::MAX,
        c1_arr.len() == 32,
        c2_arr.len() == 32,
        forall|idx: int| 0 <= idx < k ==> #[trigger] c1_arr[idx] == bit_mask_word(c1, k as int, idx),
        forall|idx: int| 0 <= idx < k ==> #[trigger] c2_arr[idx] == bit_mask_word(c2, k as int, idx),
    ensures
        m_result.len() == lanes,
        forall|j: int, p: u32| 0 <= j < lanes && p < 32 ==> #[trigger] bit_of(m_result[j], p) == lane_in_range(
            lane_words(
                flat_tails(input_arr@, h as int, (k / b) as int),
                b as int,
                lanes as int,
                s as int,
                j,
                split_stop_group(flat_tails(input_arr@, h as int, (k / b) as int), b as int, lanes as int, s as int, c1, c2, k as int, 0, (k / b) as nat),
            ),
            p,
            c1,
            c2,
            k as int,
        ),
{
    let ghost gv = flat_tails(input_arr@, h as int, (k / b) as int);
    let k_b = k / b;
    let ghost arr_len = input_arr@.len();
    let ghost wss = Seq::new(lanes as nat, |j: int| lane_words(gv, b as int, lanes as int, s as int, j, k_b as nat));
    let mut mlt = splat(0, lanes);
    let mut mgt = splat(0, lanes);
    let mut meq1 = splat(!0u32, lanes);
    let mut meq2 = splat(!0u32, lanes);
    let mut index: usize = 0;
    proof {
        assert forall|j: int| 0 <= j < lanes implies masks_agree(#[trigger] mgt[j], mlt[j], meq1[j], meq2[j], wss[j], 0, c1, c2, k as int) by {
            lemma_masks_start(wss[j], c1, c2, k as int);
        }
        assert(k_b * b <= k) by (nonlinear_arith)
            requires
                k_b == k / b,
                b > 0,
        ;
        assert(k_b >= 1 ==> b <= k) by (nonlinear_arith)
            requires
                k_b == k / b,
                b > 0,
                k_b * b <= k,
        ;
        assert((s + 1) * b <= (s + lanes) * b) by (nonlinear_arith)
            requires
                lanes >= 1,
                b > 0,
        ;
        assert(s * b + b == (s + 1) * b) by (nonlinear_arith);
        assert(s * b + (lanes - 1) * b + b == (s + lanes) * b) by (nonlinear_arith);
    }
    let mut g: usize = 0;
    while g < k_b && !(zero_in_second_half_only(&meq1) && zero_in_second_half_only(&meq2))
        invariant
            g <= k_b,
            split_stop_group(gv, b as int, lanes as int, s as int, c1, c2, k as int, 0, k_b as nat)
                == split_stop_group(gv, b as int, lanes as int, s as int, c1, c2, k as int, g as nat, k_b as nat),
            k_b == k / b,
            k_b * b <= k,
            k_b >= 1 ==> b <= k,
            b > 0,
            k <= 32,
            lanes >= 1,
            gv == flat_tails(input_arr@, h as int, k_b as int),
            k_b * h + (s + lanes) * b + k <= usize::MAX,
            s * b + b <= (s + lanes) * b,
            s * b + (lanes - 1) * b + b == (s + lanes) * b,
            (s + lanes) * b + k <= usize::MAX,
            wss.len() == lanes,
            forall|j: int| 0 <= j < lanes ==> #[trigger] wss[j] == lane_words(gv, b as int, lanes as int, s as int, j, k_b as nat),
            mgt.len() == lanes,
            mlt.len() == lanes,
            meq1.len() == lanes,
            meq2.len() == lanes,
            index == lane_words(gv, b as int, lanes as int, s as int, 0, g as nat).len(),
            c1_arr.len() == 32,
            c2_arr.len() == 32,
            forall|idx: int| 0 <= idx < k ==> #[trigger] c1_arr[idx] == bit_mask_word(c1, k as int, idx),
            forall|idx: int| 0 <= idx < k ==> #[trigger] c2_arr[idx] == bit_mask_word(c2, k as int, idx),
            forall|j: int| 0 <= j < lanes ==> masks_agree(#[trigger] mgt[j], mlt[j], meq1[j], meq2[j], wss[j], index as nat, c1, c2, k as int),
        decreases k_b - g,
    {
        proof {
            lemma_lane_words_len(gv, b as int, lanes as int, s as int, 0, g as nat);
            lemma_stop_test(mgt@, mlt@, meq1@, meq2@, wss, gv, b as int, lanes as int, s as int, c1, c2, k as int, g as nat, k_b as nat, index as nat);
        }
        let start = s * b;
        let end = if s * b + b < s * b + k { s * b + b } else { s * b + k };
        proof {
            assert(g * h <= k_b * h) by (nonlinear_arith)
                requires
                    g < k_b,
            ;
        }
        let offset = g * h;
        let ghost cnt = run_count(gv[g as int].len() as int, start as int, lanes as int, b as int);
        let ghost base = index as int;
        proof {
            lemma_lane_words_len(gv, b as int, lanes as int, s as int, 0, (g + 1) as nat);
            assert((g + 1) * b <= k_b * b) by (nonlinear_arith)
                requires
                    g < k_b,
                    b > 0,
            ;
            assert forall|j: int| 0 <= j < lanes implies {
                &&& #[trigger] lane_words(gv, b as int, lanes as int, s as int, j, (g + 1) as nat) == wss[j].subrange(0, base + cnt)
                &&& lane_words(gv, b as int, lanes as int, s as int, j, (g + 1) as nat).len() == base + cnt
                &&& wss[j].len() >= base + cnt
                &&& lane_words(gv, b as int, lanes as int, s as int, j, g as nat).len() == base
            } by {
                lemma_lane_words_prefix(gv, b as int, lanes as int, s as int, j, (g + 1) as nat, k_b as nat);
                lemma_lane_words_len(gv, b as int, lanes as int, s as int, j, (g + 1) as nat);
                lemma_lane_words_len(gv, b as int, lanes as int, s as int, j, g as nat);
            }
        }
        let mut i = start;
        while i < end && !(offset + i + (lanes - 1) * b >= input_arr.len())
            invariant
                start == s * b,
                end == start + b,
                start <= i <= end,
                i - start <= cnt,
                cnt == run_count(gv[g as int].len() as int, start as int, lanes as int, b as int),
                gv == flat_tails(input_arr@, h as int, k_b as int),
                offset == g * h,
                offset <= k_b * h,
                k_b * h + (s + lanes) * b + k <= usize::MAX,
                g < k_b,
                b > 0,
                k <= 32,
                lanes >= 1,
                index == base + (i - start),
                base + cnt <= k_b * b,
                k_b * b <= k,
                s * b + (lanes - 1) * b + b == (s + lanes) * b,
                (s + lanes) * b + k <= usize::MAX,
                wss.len() == lanes,
                forall|j: int| 0 <= j < lanes ==> {
                    &&& #[trigger] lane_words(gv, b as int, lanes as int, s as int, j, (g + 1) as nat) == wss[j].subrange(0, base + cnt)
                    &&& lane_words(gv, b as int, lanes as int, s as int, j, (g + 1) as nat).len() == base + cnt
                    &&& lane_words(gv, b as int, lanes as int, s as int, j, g as nat).len() == base
                    &&& wss[j].len() >= base + cnt
                },
                g < gv.len(),
                mgt.len() == lanes,
                mlt.len() == lanes,
                meq1.len() == lanes,
                meq2.len() == lanes,
                c1_arr.len() == 32,
                c2_arr.len() == 32,
                forall|idx: int| 0 <= idx < k ==> #[trigger] c1_arr[idx] == bit_mask_word(c1, k as int, idx),
                forall|idx: int| 0 <= idx < k ==> #[trigger] c2_arr[idx] == bit_mask_word(c2, k as int, idx),
                forall|j: int| 0 <= j < lanes ==> masks_agree(#[trigger] mgt[j], mlt[j], meq1[j], meq2[j], wss[j], index as nat, c1, c2, k as int),
            decreases end - i,
        {
            let c1i = c1_arr[index];
            let c2i = c2_arr[index];
            let ghost t = i - start;
            let mut j: usize = 0;
            while j < lanes
                invariant
                    0 <= t < cnt,
                    t == i - start,
                    start == s * b,
                    offset + i + (lanes - 1) * b < input_arr.len(),
                    gv == flat_tails(input_arr@, h as int, k_b as int),
                    offset == g * h,
                    index == base + t,
                    base + cnt <= k,
                    k <= 32,
                    c1i == bit_mask_word(c1, k as int, index as int),
                    c2i == bit_mask_word(c2, k as int, index as int),
                    wss.len() == lanes,
                    forall|x: int| 0 <= x < lanes ==> {
                        &&& #[trigger] lane_words(gv, b as int, lanes as int, s as int, x, (g + 1) as nat) == wss[x].subrange(0, base + cnt)
                        &&& lane_words(gv, b as int, lanes as int, s as int, x, (g + 1) as nat).len() == base + cnt
                        &&& lane_words(gv, b as int, lanes as int, s as int, x, g as nat).len() == base
                        &&& wss[x].len() >= base + cnt
                    },
                    g < gv.len(),
                    j <= lanes,
                    mgt.len() == lanes,
                    mlt.len() == lanes,
                    meq1.len() == lanes,
                    meq2.len() == lanes,
                    forall|x: int| 0 <= x < j ==> masks_agree(#[trigger] mgt[x], mlt[x], meq1[x], meq2[x], wss[x], (index + 1) as nat, c1, c2, k as int),
                    forall|x: int| j <= x < lanes ==> masks_agree(#[trigger] mgt[x], mlt[x], meq1[x], meq2[x], wss[x], index as nat, c1, c2, k as int),
                decreases lanes - j,
            {
                proof {
                    assert(j * b <= (lanes - 1) * b) by (nonlinear_arith)
                        requires
                            j < lanes,
                            b > 0,
                    ;
                    let lw = lane_words(gv, b as int, lanes as int, s as int, j as int, (g + 1) as nat);
                    assert(lw[base + t] == gv[g as int][s * b + t + j * b]);
                    assert(wss[j as int][index as int] == lw[base + t]);
                    lemma_masks_step(mgt[j as int], mlt[j as int], meq1[j as int], meq2[j as int], wss[j as int], index as nat, c1, c2, k as int);
                }
                let x = input_arr[offset + i + j * b];
                proof {
                    assert(i + j * b == s * b + t + j * b);
                    assert(x == gv[g as int][i + j * b]);
                    assert(x == gv[g as int][s * b + t + j * b]);
                    assert(x == wss[j as int][index as int]);
                }
                let ghost (om, ol, oe1, oe2) = (mgt@, mlt@, meq1@, meq2@);
                let new_mgt = mgt[j] | (meq1[j] & (!c1i) & x);
                let new_mlt = mlt[j] | (meq2[j] & c2i & (!x));
                let new_meq1 = meq1[j] & !(x ^ c1i);
                let new_meq2 = meq2[j] & !(x ^ c2i);
                mgt.set(j, new_mgt);
                mlt.set(j, new_mlt);
                meq1.set(j, new_meq1);
                meq2.set(j, new_meq2);
                proof {
                    assert forall|y: int| 0 <= y < j + 1 implies masks_agree(#[trigger] mgt[y], mlt[y], meq1[y], meq2[y], wss[y], (index + 1) as nat, c1, c2, k as int) by {
                        if y < j {
                            assert(mgt[y] == om[y] && mlt[y] == ol[y] && meq1[y] == oe1[y] && meq2[y] == oe2[y]);
                        }
                    }
                    assert forall|y: int| j + 1 <= y < lanes implies masks_agree(#[trigger] mgt[y], mlt[y], meq1[y], meq2[y], wss[y], index as nat, c1, c2, k as int) by {
                        assert(mgt[y] == om[y] && mlt[y] == ol[y] && meq1[y] == oe1[y] && meq2[y] == oe2[y]);
                    }
                }
                j += 1;
            }
            index = index + 1;
            i = i + 1;
        }
        proof {
            assert(i - start == cnt);
            assert(index == lane_words(gv, b as int, lanes as int, s as int, 0, (g + 1) as nat).len());
        }
        g += 1;
    }
    let ghost stop = g as nat;
    proof {
        lemma_lane_words_len(gv, b as int, lanes as int, s as int, 0, g as nat);
        lemma_stop_test(mgt@, mlt@, meq1@, meq2@, wss, gv, b as int, lanes as int, s as int, c1, c2, k as int, g as nat, k_b as nat, index as nat);
        assert(split_stop_group(gv, b as int, lanes as int, s as int, c1, c2, k as int, g as nat, k_b as nat) == g);
        assert forall|x: int| 0 <= x < lanes implies #[trigger] lane_words(gv, b as int, lanes as int, s as int, x, stop).len() == index by {
            lemma_lane_words_len(gv, b as int, lanes as int, s as int, x, stop);
        }
        assert forall|x: int| 0 <= x < lanes implies masks_agree(
            #[trigger] mgt[x],
            mlt[x],
            meq1[x],
            meq2[x],
            lane_words(gv, b as int, lanes as int, s as int, x, stop),
            index as nat,
            c1,
            c2,
            k as int,
        ) by {
            lemma_lane_words_prefix(gv, b as int, lanes as int, s as int, x, stop, k_b as nat);
            lemma_lane_words_len(gv, b as int, lanes as int, s as int, x, stop);
            let lw = lane_words(gv, b as int, lanes as int, s as int, x, stop);
            assert(lw.len() == index);
            assert(lw.subrange(0, index as int) =~= lw);
            assert(wss[x] == lane_words(gv, b as int, lanes as int, s as int, x, k_b as nat));
            assert(wss[x].subrange(0, index as int) == lw);
            lemma_masks_prefix(mgt[x], mlt[x], meq1[x], meq2[x], wss[x], lane_words(gv, b as int, lanes as int, s as int, x, stop), index as nat, c1, c2, k as int);
        }
    }
    let mut m_result: Vec<u32> = Vec::new();
    let mut j: usize = 0;
    while j < lanes
        invariant
            j <= lanes,
            m_result.len() == j,
            mgt.len() == lanes,
            mlt.len() == lanes,
            meq1.len() == lanes,
            meq2.len() == lanes,
            forall|x: int| 0 <= x < lanes ==> #[trigger] lane_words(gv, b as int, lanes as int, s as int, x, stop).len() == index,
            forall|x: int| 0 <= x < lanes ==> masks_agree(
                #[trigger] mgt[x],
                mlt[x],
                meq1[x],
                meq2[x],
                lane_words(gv, b as int, lanes as int, s as int, x, stop),
                index as nat,
                c1,
                c2,
                k as int,
            ),
            forall|x: int, p: u32| 0 <= x < j && p < 32 ==> #[trigger] bit_of(m_result[x], p) == lane_in_range(
                lane_words(gv, b as int, lanes as int, s as int, x, stop),
                p,
                c1,
                c2,
                k as int,
            ),
        decreases lanes - j,
    {
        proof {
            lemma_masks_finished(mgt[j as int], mlt[j as int], meq1[j as int], meq2[j as int], lane_words(gv, b as int, lanes as int, s as int, j as int, stop), c1, c2, k as int);
        }
        m_result.push(mgt[j] & mlt[j]);
        j += 1;
    }
    m_result
}

/// Lane `j` of block `q` (segments `4 * q ..`) of the index marks a value of
/// segment `4 * q + j` strictly between `c1` and `c2`, as the block reads
/// the bit groups.
pub open spec fn block_lane_in_range(bg: BitGroup, q: int, j: int, p: u32, c1: u32, c2: u32) -> bool {
    lane_in_range(
        lane_words(nested_views(bg.bit_groups@), bg.b as int, 4, 4 * q, j, (bg.k / bg.b) as nat),
        p,
        c1,
        c2,
        bg.k as int,
    )
}

/// Scans the index in blocks of four segments and, for every block, appends
/// the 32 marks of lanes `order[0]`, ..., `order[3]` in turn, each most
/// significant bit first.
pub(crate) fn scan_in_blocks_of_four(input_bit_group: BitGroup, c1: u32, c2: u32, order: [usize; 4]) -> (result_bv: BitVec)
    requires
        input_bit_group.b > 0,
        input_bit_group.k <= 32,
        forall|q: int| 0 <= q < (input_bit_group.segment_size + 3) / 4 ==> #[trigger] block_reads_fit(
            nested_views(input_bit_group.bit_groups@),
            input_bit_group.bit_groups.len() as int,
            input_bit_group.b as int,
            4,
            4 * q,
            c1,
            c2,
            input_bit_group.k as int,
            0,
            (input_bit_group.k / input_bit_group.b) as nat,
        ),
        (input_bit_group.segment_size + 3) * input_bit_group.b + input_bit_group.k <= usize::MAX,
        128 * ((input_bit_group.segment_size + 3) / 4) <= usize::MAX,
        forall|u: int| 0 <= u < 4 ==> #[trigger] order@[u] < 4,
    ensures
        bits_of(result_bv).len() == 128 * ((input_bit_group.segment_size + 3) / 4),
        forall|q: int, u: int, p: u32| 0 <= q < (input_bit_group.segment_size + 3) / 4 && 0 <= u < 4 && p < 32 ==>
            #[trigger] bits_of(result_bv)[128 * q + 32 * u + 31 - p] == block_lane_in_range(input_bit_group, q, order@[u] as int, p, c1, c2),
{
    let ghost bg = input_bit_group;
    let k: usize = input_bit_group.k;
    let b: usize = input_bit_group.b;
    let segment_size: usize = input_bit_group.segment_size;
    let input: Vec<Vec<u32>> = input_bit_group.bit_groups;
    let mut result_bv = bitvec_new();
    let c1_vec = constant_masks(c1, k);
    let c2_vec = constant_masks(c2, k);
    let mut s: usize = 0;
    while s < segment_size
        invariant
            s % 4 == 0,
            s <= segment_size + 3,
            b == bg.b,
            k == bg.k,
            segment_size == bg.segment_size,
            input == bg.bit_groups,
            b > 0,
            k <= 32,
            forall|q: int| 0 <= q < (segment_size + 3) / 4 ==> #[trigger] block_reads_fit(
                nested_views(input@),
                input.len() as int,
                b as int,
                4,
                4 * q,
                c1,
                c2,
                k as int,
                0,
                (k / b) as nat,
            ),
            (segment_size + 3) * b + k <= usize::MAX,
            128 * ((segment_size + 3) / 4) <= usize::MAX,
            forall|u: int| 0 <= u < 4 ==> #[trigger] order@[u] < 4,
            c1_vec.len() == 32,
            c2_vec.len() == 32,
            forall|idx: int| 0 <= idx < 32 ==> #[trigger] c1_vec[idx] == (if idx < k { bit_mask_word(c1, k as int, idx) } else { 0u32 }),
            forall|idx: int| 0 <= idx < 32 ==> #[trigger] c2_vec[idx] == (if idx < k { bit_mask_word(c2, k as int, idx) } else { 0u32 }),
            bits_of(result_bv).len() == 128 * (s / 4),
            forall|q: int, u: int, p: u32| 0 <= q < s / 4 && 0 <= u < 4 && p < 32 ==>
                #[trigger] bits_of(result_bv)[128 * q + 32 * u + 31 - p] == block_lane_in_range(bg, q, order@[u] as int, p, c1, c2),
        decreases segment_size + 3 - s,
    {
        let ghost q = s / 4;
        proof {
            assert((s + 4) * b <= (segment_size + 3) * b) by (nonlinear_arith)
                requires
                    s < segment_size,
                    b > 0,
            ;
            assert(s / 4 < (segment_size + 3) / 4);
            assert(128 * (s / 4) + 128 <= 128 * ((segment_size + 3) / 4));
            assert(4 * (s / 4) == s);
        }
        let m_result = compare_block(&input, s, b, k, 4, c1, c2, &c1_vec, &c2_vec);
        let ghost before = bits_of(result_bv);
        let mut u: usize = 0;
        while u < 4
            invariant
                u <= 4,
                m_result.len() == 4,
                forall|x: int| 0 <= x < 4 ==> #[trigger] order@[x] < 4,
                before.len() == 128 * q,
                128 * q + 128 <= usize::MAX,
                bits_of(result_bv).len() == 128 * q + 32 * u,
                bits_of(result_bv).subrange(0, 128 * q) == before,
                forall|x: int, p: u32| 0 <= x < u && p < 32 ==>
                    #[trigger] bits_of(result_bv)[128 * q + 32 * x + 31 - p] == bit_of(m_result[order@[x] as int], p),
            decreases 4 - u,
        {
            let ghost prev = bits_of(result_bv);
            append_word_bits(&mut result_bv, m_result[order[u]]);
            proof {
                let now = bits_of(result_bv);
                assert(now.subrange(0, 128 * q) =~= prev.subrange(0, 128 * q));
                assert forall|x: int, p: u32| 0 <= x < u + 1 && p < 32 implies
                    #[trigger] bits_of(result_bv)[128 * q + 32 * x + 31 - p] == bit_of(m_result[order@[x] as int], p) by {
                    if x == u {
                        assert(now[128 * q + 32 * x + 31 - p] == word_bits(m_result[order@[x] as int])[31 - p]);
                    } else {
                        assert(now[128 * q + 32 * x + 31 - p] == prev[128 * q + 32 * x + 31 - p]);
                    }
                }
            }
            u += 1;
        }
        proof {
            assert forall|qq: int, uu: int, p: u32| 0 <= qq < (s + 4) / 4 && 0 <= uu < 4 && p < 32 implies
                #[trigger] bits_of(result_bv)[128 * qq + 32 * uu + 31 - p] == block_lane_in_range(bg, qq, order@[uu] as int, p, c1, c2) by {
                if qq < q {
                    assert(bits_of(result_bv)[128 * qq + 32 * uu + 31 - p] == before[128 * qq + 32 * uu + 31 - p]);
                } else {
                    assert(qq == q);
                    assert(4 * q == s);
                }
            }
        }
        s += 4;
    }
    proof {
        assert(s / 4 == (segment_size + 3) / 4);
    }
    result_bv
}

} // verus!

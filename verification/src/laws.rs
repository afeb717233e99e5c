//! What holds of the library as a whole.
use vstd::prelude::*;
use crate::bits::{bit_of, is_bit_slice, lemma_and_bits, lemma_bits_determine, lemma_or_bits};
use crate::bitgroup::{groups_flat, header_of, lemma_groups_flat_index, BitGroup};
use crate::codec::{group_views, groups_start, index_bytes, law_index_roundtrip, parse_groups, parse_header};
use crate::bitgroup::index_builder::{appends_segment, group_len, is_built_groups, B, K, W};
use crate::bitgroup::scanner::{compared_bits, flat_lane_in_range, flat_segment_words, scan_result};
use crate::compare::{bit_value, const_prefix, lane_value};
use crate::naivescan::naive_scanner::{range_marks, value_in_range};
use crate::lanes::{block_lane_in_range, flat_tails, lane_words, nested_views, run_count};
use crate::simd_scanner_256::{octet_lane_in_range, octet_stop_group};
use crate::compare::lane_in_range;
use vstd::arithmetic::div_mod::{lemma_fundamental_div_mod, lemma_fundamental_div_mod_converse};

verus! {

/// Shifting right by `q` keeps the bits from `q` up: they are twice the
/// bits from `q + 1` up, plus bit `q`.
proof fn lemma_shift_split(v: u32, q: u32, q1: u32)
    requires
        q < 32,
        q1 == q + 1,
    ensures
        (v >> q) as int == 2 * ((v >> q1) as int) + bit_value(v, q),
{
    assert((v >> q) as int == 2 * ((v >> q1) as int) + ((v >> q) & 1) as int) by (bit_vector)
        requires
            q < 32,
            q1 == q + 1,
    ;
    assert(((v >> q) & 1) == 1 || ((v >> q) & 1) == 0) by (bit_vector);
}

/// The `n` most significant bits of a 32-bit constant spell `v >> (32 - n)`.
proof fn lemma_const_prefix_shift(v: u32, n: nat)
    requires
        1 <= n <= 32,
    ensures
        const_prefix(v, 32, n) == (v >> ((32 - n) as u32)) as int,
    decreases n,
{
    if n == 1 {
        assert(const_prefix(v, 32, 0) == 0);
        assert((v >> 31u32) as int == ((v >> 31u32) & 1) as int) by (bit_vector);
        assert(((v >> 31u32) & 1) == 1 || ((v >> 31u32) & 1) == 0) by (bit_vector);
    } else {
        lemma_const_prefix_shift(v, (n - 1) as nat);
        lemma_shift_split(v, (32 - n) as u32, (33 - n) as u32);
    }
}

/// All 32 bits of a value, most significant first, spell the value.
proof fn lemma_const_prefix_full(v: u32)
    ensures
        const_prefix(v, 32, 32) == v as int,
{
    lemma_const_prefix_shift(v, 32);
    assert(v >> 0u32 == v) by (bit_vector);
}

/// A lane whose bits are those of `v`, most significant first, spells `v`.
proof fn lemma_lane_spells(ws: Seq<u32>, p: u32, v: u32, n: nat)
    requires
        n <= ws.len(),
        n <= 32,
        forall|idx: int| 0 <= idx < n ==> #[trigger] bit_value(ws[idx], p) == bit_value(v, (31 - idx) as u32),
    ensures
        lane_value(ws, p, n) == const_prefix(v, 32, n),
    decreases n,
{
    if n > 0 {
        lemma_lane_spells(ws, p, v, (n - 1) as nat);
        assert(bit_value(ws[n - 1], p) == bit_value(v, (31 - (n - 1)) as u32));
        assert((32 - n) as u32 == (31 - (n - 1)) as u32);
    }
}

/// `data` is the laid-out bit-group index of the first `n` segments of
/// `values`: bit group `g` holds `4 * n` words, word `4 * s + t` of it being
/// the bit slice of bit `31 - (4 * g + t)` over segment `s`.
pub open spec fn is_flat_index(data: Seq<u32>, values: Seq<u32>, n: int) -> bool {
    &&& data.len() == 32 * n
    &&& forall|g: int, s: int, t: int| 0 <= g < 8 && 0 <= s < n && 0 <= t < 4 ==>
        is_bit_slice(
            #[trigger] data[4 * n * g + 4 * s + t],
            values.subrange(W * s, W * s + W),
            W as int,
            (K - 1 - (B * g + t)) as u32,
        )
}

/// Scanning a laid-out index of a column agrees with testing each value:
/// lane `p` of segment `s` is in range exactly when value `32 * s + 31 - p`
/// of the column lies strictly between `c1` and `c2`.
pub proof fn law_flat_index_agrees_with_values(bg: BitGroup, values: Seq<u32>, s: int, p: u32, c1: u32, c2: u32)
    requires
        bg.k == K,
        bg.b == B,
        bg.segment_size == values.len() / (W as nat),
        is_flat_index(bg.bit_group_box@, values, bg.segment_size as int),
        0 <= s < bg.segment_size,
        p < 32,
    ensures
        W * s + 31 - p < values.len(),
        flat_lane_in_range(bg, s, p, c1, c2) == value_in_range(values[W * s + 31 - p], c1, c2),
{
    let n = bg.segment_size as int;
    let h = B * n;
    let data = bg.bit_group_box@;
    let m = compared_bits(32, 4);
    assert(m == 32);
    let ws = flat_segment_words(data, 4, h, s, m);
    let seg = values.subrange(W * s, W * s + W);
    assert(W * s + W <= values.len()) by (nonlinear_arith)
        requires
            s < n,
            n == values.len() / 32,
    ;
    let v = values[W * s + 31 - p];
    assert(seg[31 - p] == v);
    assert forall|idx: int| 0 <= idx < 32 implies #[trigger] bit_value(ws[idx], p) == bit_value(v, (31 - idx) as u32) by {
        let g = idx / 4;
        let t = idx % 4;
        assert(0 <= g < 8 && 0 <= t < 4 && 4 * g + t == idx);
        assert(g * h == 4 * n * g) by (nonlinear_arith)
            requires
                h == 4 * n,
        ;
        assert(ws[idx] == data[4 * n * g + 4 * s + t]);
        assert(is_bit_slice(data[4 * n * g + 4 * s + t], seg, W as int, (K - 1 - (B * g + t)) as u32));
        assert(bit_of(ws[idx], p) == (p < 32 && bit_of(seg[32 - 1 - p], (K - 1 - (B * g + t)) as u32)));
    }
    lemma_lane_spells(ws, p, v, 32);
    lemma_const_prefix_full(v);
    lemma_const_prefix_full(c1);
    lemma_const_prefix_full(c2);
}

/// Scanning a laid-out index of a column marks exactly what the plain scan
/// of the column marks: bit `p` of segment `s` is the plain mark of value
/// `32 * s + 31 - p`.
pub proof fn law_flat_index_scan_matches_plain_scan(bg: BitGroup, values: Seq<u32>, c1: u32, c2: u32)
    requires
        bg.k == K,
        bg.b == B,
        bg.segment_size == values.len() / (W as nat),
        is_flat_index(bg.bit_group_box@, values, bg.segment_size as int),
    ensures
        forall|s: int, p: u32| 0 <= s < bg.segment_size && p < 32 ==>
            #[trigger] flat_lane_in_range(bg, s, p, c1, c2) == range_marks(values, c1, c2)[W * s + 31 - p],
{
    assert forall|s: int, p: u32| 0 <= s < bg.segment_size && p < 32 implies
        #[trigger] flat_lane_in_range(bg, s, p, c1, c2) == range_marks(values, c1, c2)[W * s + 31 - p] by {
        law_flat_index_agrees_with_values(bg, values, s, p, c1, c2);
    }
}

/// The words of a scan of a laid-out index mark exactly the values the
/// plain scan of the column marks: for every value `i` of the full
/// segments, bit `31 - i % 32` of word `i / 32` is the plain mark of value
/// `i`.
pub proof fn law_flat_scan_words_match_plain_scan(bg: BitGroup, values: Seq<u32>, num: u32, c1: u32, c2: u32, r: Seq<u32>)
    requires
        bg.k == K,
        bg.b == B,
        bg.segment_size == values.len() / (W as nat),
        is_flat_index(bg.bit_group_box@, values, bg.segment_size as int),
        bg.segment_size <= num / 32,
        scan_result(bg, num, c1, c2, r),
    ensures
        forall|i: int| 0 <= i < W * bg.segment_size ==>
            #[trigger] bit_of(r[i / 32], (31 - i % 32) as u32) == range_marks(values, c1, c2)[i],
{
    assert forall|i: int| 0 <= i < W * bg.segment_size implies
        #[trigger] bit_of(r[i / 32], (31 - i % 32) as u32) == range_marks(values, c1, c2)[i] by {
        let s = i / 32;
        let p = (31 - i % 32) as u32;
        assert(0 <= s < bg.segment_size);
        assert(W * s + 31 - p == i);
        assert(bit_of(r[s], p) == (s < bg.segment_size && flat_lane_in_range(bg, s, p, c1, c2)));
        law_flat_index_agrees_with_values(bg, values, s, p, c1, c2);
    }
}

/// The built bit groups, laid end to end, are a laid-out index.
pub proof fn law_built_groups_lay_out(groups: Seq<Vec<u32>>, values: Seq<u32>, n: int)
    requires
        n >= 0,
        is_built_groups(groups, values, n),
    ensures
        is_flat_index(groups_flat(groups), values, n),
{
    let h = B * n;
    if n == 0 {
        assert(groups_flat(groups) == Seq::<u32>::empty());
    } else {
        crate::bitgroup::lemma_groups_flat_len(groups, h);
        assert forall|g: int, s: int, t: int| 0 <= g < 8 && 0 <= s < n && 0 <= t < 4 implies
            is_bit_slice(
                #[trigger] groups_flat(groups)[4 * n * g + 4 * s + t],
                values.subrange(W * s, W * s + W),
                W as int,
                (K - 1 - (B * g + t)) as u32,
            ) by {
            assert(4 * s + t < h) by (nonlinear_arith)
                requires
                    s < n,
                    t < 4,
                    h == 4 * n,
            ;
            assert(g * h == 4 * n * g) by (nonlinear_arith)
                requires
                    h == 4 * n,
            ;
            lemma_groups_flat_index(groups, h, g, 4 * s + t);
            assert(groups_flat(groups)[4 * n * g + 4 * s + t] == groups[g]@[B * s + t]);
        }
    }
}

/// Scanning the index built from a column agrees with testing each value:
/// lane `p` of segment `s` is in range exactly when value `32 * s + 31 - p`
/// of the column lies strictly between `c1` and `c2`.
pub proof fn law_scan_agrees_with_values(bg: BitGroup, values: Seq<u32>, s: int, p: u32, c1: u32, c2: u32)
    requires
        bg.k == K,
        bg.b == B,
        bg.segment_size == values.len() / (W as nat),
        is_built_groups(bg.bit_groups@, values, bg.segment_size as int),
        bg.bit_group_box@ == groups_flat(bg.bit_groups@),
        0 <= s < bg.segment_size,
        p < 32,
    ensures
        W * s + 31 - p < values.len(),
        flat_lane_in_range(bg, s, p, c1, c2) == value_in_range(values[W * s + 31 - p], c1, c2),
{
    law_built_groups_lay_out(bg.bit_groups@, values, bg.segment_size as int);
    law_flat_index_agrees_with_values(bg, values, s, p, c1, c2);
}

/// The bit-group scan of an index built from a column marks exactly what
/// the plain scan of the column marks: bit `p` of segment `s` is the plain
/// mark of value `32 * s + 31 - p`.
pub proof fn law_bitgroup_scan_matches_plain_scan(bg: BitGroup, values: Seq<u32>, c1: u32, c2: u32)
    requires
        bg.k == K,
        bg.b == B,
        bg.segment_size == values.len() / (W as nat),
        is_built_groups(bg.bit_groups@, values, bg.segment_size as int),
        bg.bit_group_box@ == groups_flat(bg.bit_groups@),
    ensures
        forall|s: int, p: u32| 0 <= s < bg.segment_size && p < 32 ==>
            #[trigger] flat_lane_in_range(bg, s, p, c1, c2) == range_marks(values, c1, c2)[W * s + 31 - p],
{
    assert forall|s: int, p: u32| 0 <= s < bg.segment_size && p < 32 implies
        #[trigger] flat_lane_in_range(bg, s, p, c1, c2) == range_marks(values, c1, c2)[W * s + 31 - p] by {
        law_scan_agrees_with_values(bg, values, s, p, c1, c2);
    }
}


/// When every bit group holds the words of all lanes of a block, lane `j`
/// reads exactly the words segment `s + j` is made of.
proof fn lemma_full_runs(groups: Seq<Seq<u32>>, data: Seq<u32>, b: int, h: int, lanes: int, s: int, j: int, n: nat)
    requires
        b > 0,
        s >= 0,
        0 <= j < lanes,
        n <= groups.len(),
        forall|g: int| 0 <= g < n ==> #[trigger] groups[g].len() >= (s + lanes) * b,
        forall|g: int, x: int| 0 <= g < n && 0 <= x < (s + lanes) * b ==> #[trigger] groups[g][x] == data[g * h + x],
    ensures
        lane_words(groups, b, lanes, s, j, n) == flat_segment_words(data, b, h, s + j, n * b),
    decreases n,
{
    if n > 0 {
        let g = n - 1;
        lemma_full_runs(groups, data, b, h, lanes, s, j, (n - 1) as nat);
        assert(groups[g].len() - s * b - (lanes - 1) * b >= b) by (nonlinear_arith)
            requires
                groups[g].len() >= (s + lanes) * b,
        ;
        assert(run_count(groups[g].len() as int, s * b, lanes, b) == b);
        let lw = lane_words(groups, b, lanes, s, j, n);
        let fw = flat_segment_words(data, b, h, s + j, n * b);
        assert((n - 1) * b + b == n * b) by (nonlinear_arith);
        assert forall|idx: int| 0 <= idx < n * b implies #[trigger] lw[idx] == fw[idx] by {
            if idx >= (n - 1) * b {
                let t = idx - (n - 1) * b;
                lemma_fundamental_div_mod_converse(idx, b, g, t);
                assert(s * b + t + j * b < (s + lanes) * b) by (nonlinear_arith)
                    requires
                        0 <= t < b,
                        0 <= j < lanes,
                ;
                assert(s * b + t + j * b == (s + j) * b + t) by (nonlinear_arith);
                assert(s * b + t + j * b >= 0) by (nonlinear_arith)
                    requires
                        s >= 0,
                        t >= 0,
                        j >= 0,
                        b > 0,
                ;
                assert(lw[idx] == groups[g][s * b + t + j * b]);
            } else {
                assert(lw[idx] == lane_words(groups, b, lanes, s, j, (n - 1) as nat)[idx]);
            }
        }
        assert(lw =~= fw);
    }
}

/// A block that reads nothing marks nothing.
proof fn lemma_empty_runs(groups: Seq<Seq<u32>>, b: int, lanes: int, s: int, j: int, n: nat)
    requires
        b > 0,
        lanes >= 1,
        forall|g: int| 0 <= g < n ==> #[trigger] groups[g].len() <= (s + lanes - 1) * b,
    ensures
        lane_words(groups, b, lanes, s, j, n).len() == 0,
    decreases n,
{
    if n > 0 {
        lemma_empty_runs(groups, b, lanes, s, j, (n - 1) as nat);
        assert(s * b + (lanes - 1) * b == (s + lanes - 1) * b) by (nonlinear_arith);
    }
}

/// The index is laid out as the scans expect: every bit group holds `b`
/// words for each segment, and the laid-out copy is the bit groups end to
/// end.
pub open spec fn well_laid_out(bg: BitGroup) -> bool {
    &&& bg.b > 0
    &&& bg.k <= 32
    &&& bg.bit_groups.len() >= bg.k / bg.b
    &&& forall|g: int| 0 <= g < bg.bit_groups.len() ==> #[trigger] bg.bit_groups[g]@.len() == bg.b * bg.segment_size
    &&& bg.bit_group_box@ == groups_flat(bg.bit_groups@)
}

/// The four-lane scans agree with the segment-at-a-time scan on every block
/// of four whole segments; in a last block that reaches past the segments
/// no lane reads anything, and nothing is marked.
pub proof fn law_block_scan_matches_scan(bg: BitGroup, q: int, j: int, p: u32, c1: u32, c2: u32)
    requires
        well_laid_out(bg),
        0 <= q,
        0 <= j < 4,
        p < 32,
    ensures
        4 * q + 4 <= bg.segment_size ==> block_lane_in_range(bg, q, j, p, c1, c2) == flat_lane_in_range(bg, 4 * q + j, p, c1, c2),
        4 * q + 4 > bg.segment_size ==> !block_lane_in_range(bg, q, j, p, c1, c2),
{
    let b = bg.b as int;
    let n = bg.segment_size as int;
    let h = b * n;
    let gv = nested_views(bg.bit_groups@);
    let k_b = (bg.k / bg.b) as nat;
    if 4 * q + 4 <= n {
        assert((4 * q + 4) * b <= b * n) by (nonlinear_arith)
            requires
                4 * q + 4 <= n,
                b > 0,
        ;
        assert forall|g: int| 0 <= g < k_b implies #[trigger] gv[g].len() >= (4 * q + 4) * b by {
            assert(gv[g] == bg.bit_groups@[g]@);
            assert(bg.bit_groups[g]@.len() == b * n);
        }
        assert forall|g: int, x: int| 0 <= g < k_b && 0 <= x < (4 * q + 4) * b implies #[trigger] gv[g][x] == bg.bit_group_box@[g * h + x] by {
            assert(gv[g] == bg.bit_groups@[g]@);
            lemma_groups_flat_index(bg.bit_groups@, h, g, x);
        }
        lemma_full_runs(gv, bg.bit_group_box@, b, h, 4, 4 * q, j, k_b);
        assert(compared_bits(bg.k as int, b) == k_b * b);
    } else {
        assert(b * n <= (4 * q + 3) * b) by (nonlinear_arith)
            requires
                n <= 4 * q + 3,
                b > 0,
        ;
        assert forall|g: int| 0 <= g < k_b implies #[trigger] gv[g].len() <= (4 * q + 4 - 1) * b by {
            assert(gv[g] == bg.bit_groups@[g]@);
            assert(bg.bit_groups[g]@.len() == b * n);
        }
        lemma_empty_runs(gv, b, 4, 4 * q, j, k_b);
        let ws = lane_words(gv, b, 4, 4 * q, j, k_b);
        assert(!lane_in_range(ws, p, c1, c2, bg.k as int));
    }
}

/// The eight-lane scan agrees with the segment-at-a-time scan when the
/// segments come in whole blocks of eight, the laid-out copy holds every
/// compared bit group, and the block of segment `r` does not stop before
/// its last bit group.
pub proof fn law_octet_scan_matches_scan(bg: BitGroup, r: int, p: u32, c1: u32, c2: u32)
    requires
        bg.b > 0,
        bg.k <= 32,
        bg.segment_size % 8 == 0,
        (bg.k / bg.b) * (bg.b * bg.segment_size) <= bg.bit_group_box@.len(),
        0 <= r < bg.segment_size,
        p < 32,
        octet_stop_group(bg, 8 * (r / 8), c1, c2) == bg.k / bg.b,
    ensures
        octet_lane_in_range(bg, r, p, c1, c2) == flat_lane_in_range(bg, r, p, c1, c2),
{
    let b = bg.b as int;
    let n = bg.segment_size as int;
    let h = b * n;
    let data = bg.bit_group_box@;
    let k_b = bg.k / bg.b;
    let tails = flat_tails(data, h, k_b as int);
    let s = 8 * (r / 8);
    let j = r % 8;
    assert(s + 8 <= n);
    assert((s + 8) * b <= b * n) by (nonlinear_arith)
        requires
            s + 8 <= n,
            b > 0,
    ;
    assert(h >= 0) by (nonlinear_arith)
        requires
            h == b * n,
            b > 0,
            n >= 0,
    ;
    assert forall|g: int| 0 <= g < k_b implies #[trigger] tails[g].len() >= (s + 8) * b by {
        assert(g * h + h <= k_b * h) by (nonlinear_arith)
            requires
                0 <= g < k_b,
                h >= 0,
        ;
        assert(g * h >= 0) by (nonlinear_arith)
            requires
                0 <= g,
                h >= 0,
        ;
    }
    assert forall|g: int, x: int| 0 <= g < k_b && 0 <= x < (s + 8) * b implies #[trigger] tails[g][x] == data[g * h + x] by {
        assert(g * h + h <= k_b * h) by (nonlinear_arith)
            requires
                0 <= g < k_b,
                h >= 0,
        ;
        assert(g * h >= 0) by (nonlinear_arith)
            requires
                0 <= g,
                h >= 0,
        ;
    }
    lemma_full_runs(tails, data, b, h, 8, s, j, k_b as nat);
    assert(s + j == r);
}


/// A stored index reads back with its four parameters and its bit groups
/// (which reading also lays end to end), provided no bit group is empty.
pub proof fn law_stored_index_reads_back(bg: BitGroup)
    requires
        forall|g: int| 0 <= g < bg.bit_groups.len() ==> #[trigger] bg.bit_groups[g]@.len() > 0,
    ensures
        parse_header(index_bytes(header_of(bg), group_views(bg.bit_groups@)), 4) == header_of(bg),
        parse_groups(
            index_bytes(header_of(bg), group_views(bg.bit_groups@)),
            groups_start(index_bytes(header_of(bg), group_views(bg.bit_groups@)), 4),
        ) == Some(group_views(bg.bit_groups@)),
{
    let gv = group_views(bg.bit_groups@);
    assert forall|i: int| 0 <= i < gv.len() implies 0 < #[trigger] gv[i].len() <= u64::MAX by {
        assert(gv[i] == bg.bit_groups[i]@);
        assert(bg.bit_groups[i].len() == bg.bit_groups[i]@.len());
    }
    law_index_roundtrip(header_of(bg), gv);
}


/// Storing the index built from a column, reading it back and scanning it
/// marks exactly what the plain scan of the column marks.
pub proof fn law_stored_index_scan_matches_plain_scan(built: BitGroup, read: BitGroup, values: Seq<u32>, c1: u32, c2: u32)
    requires
        built.k == K,
        built.b == B,
        built.segment_size == values.len() / (W as nat),
        is_built_groups(built.bit_groups@, values, built.segment_size as int),
        header_of(read) == parse_header(index_bytes(header_of(built), group_views(built.bit_groups@)), 4),
        parse_groups(
            index_bytes(header_of(built), group_views(built.bit_groups@)),
            groups_start(index_bytes(header_of(built), group_views(built.bit_groups@)), 4),
        ) == Some(group_views(read.bit_groups@)),
        read.bit_group_box@ == groups_flat(read.bit_groups@),
    ensures
        read.segment_size == built.segment_size,
        forall|s: int, p: u32| 0 <= s < read.segment_size && p < 32 ==>
            #[trigger] flat_lane_in_range(read, s, p, c1, c2) == range_marks(values, c1, c2)[W * s + 31 - p],
{
    let n = built.segment_size as int;
    assert forall|g: int| 0 <= g < built.bit_groups.len() implies #[trigger] built.bit_groups[g]@.len() > 0 by {
        assert(n > 0);
        assert(built.bit_groups[g]@.len() == B * n);
    }
    law_stored_index_reads_back(built);
    assert(header_of(read) == header_of(built));
    assert(read.k == built.k && read.b == built.b && read.segment_size == built.segment_size);
    assert(group_views(read.bit_groups@) == group_views(built.bit_groups@));
    assert(read.bit_groups@.len() == built.bit_groups@.len());
    assert forall|g: int| 0 <= g < read.bit_groups@.len() implies #[trigger] read.bit_groups@[g]@ == built.bit_groups@[g]@ by {
        assert(group_views(read.bit_groups@)[g] == group_views(built.bit_groups@)[g]);
    }
    assert(is_built_groups(read.bit_groups@, values, n));
    law_bitgroup_scan_matches_plain_scan(read, values, c1, c2);
}


/// Bit slicing commutes with or: the bit slice of the word-wise or of two
/// segments is the or of their bit slices.
pub proof fn law_bit_slice_or(a: Seq<u32>, b: Seq<u32>, c: Seq<u32>, n: int, i: u32, wa: u32, wb: u32, wc: u32)
    requires
        i < 32,
        0 <= n <= a.len(),
        n <= b.len(),
        n <= c.len(),
        forall|j: int| 0 <= j < n ==> #[trigger] c[j] == a[j] | b[j],
        is_bit_slice(wa, a, n, i),
        is_bit_slice(wb, b, n, i),
        is_bit_slice(wc, c, n, i),
    ensures
        wc == wa | wb,
{
    assert forall|p: u32| p < 32 implies #[trigger] bit_of(wc, p) == bit_of(wa | wb, p) by {
        lemma_or_bits(wa, wb, p);
        if p < n {
            let j = n - 1 - p;
            lemma_or_bits(a[j], b[j], i);
            assert(c[j] == a[j] | b[j]);
        }
        assert(bit_of(wc, p) == (p < n && bit_of(c[n - 1 - p], i)));
        assert(bit_of(wa, p) == (p < n && bit_of(a[n - 1 - p], i)));
        assert(bit_of(wb, p) == (p < n && bit_of(b[n - 1 - p], i)));
    }
    lemma_bits_determine(wc, wa | wb);
}

/// Transposing the word-wise or of two segments, starting from no bit
/// groups, gives the word-wise or of their transpositions.
pub proof fn law_process_segment_or(
    ga: Seq<Vec<u32>>,
    gb: Seq<Vec<u32>>,
    gc: Seq<Vec<u32>>,
    a: Seq<u32>,
    b: Seq<u32>,
    c: Seq<u32>,
)
    requires
        a.len() >= W,
        b.len() >= W,
        c.len() >= W,
        forall|j: int| 0 <= j < W ==> #[trigger] c[j] == a[j] | b[j],
        appends_segment(Seq::empty(), ga, a),
        appends_segment(Seq::empty(), gb, b),
        appends_segment(Seq::empty(), gc, c),
    ensures
        forall|g: int, t: int| 0 <= g < K / B && 0 <= t < B ==> #[trigger] gc[g]@[t] == ga[g]@[t] | gb[g]@[t],
{
    assert forall|g: int, t: int| 0 <= g < K / B && 0 <= t < B implies #[trigger] gc[g]@[t] == ga[g]@[t] | gb[g]@[t] by {
        let e = Seq::<Vec<u32>>::empty();
        assert(group_len(e, g) == 0);
        let i = (K - 1 - (g * B + t)) as u32;
        assert(is_bit_slice(ga[g]@[group_len(e, g) + t], a, W as int, i));
        assert(is_bit_slice(gb[g]@[group_len(e, g) + t], b, W as int, i));
        assert(is_bit_slice(gc[g]@[group_len(e, g) + t], c, W as int, i));
        law_bit_slice_or(a, b, c, W as int, i, ga[g]@[t], gb[g]@[t], gc[g]@[t]);
    }
}

/// Shifting right keeps order.
proof fn lemma_shr_monotone(c: u32, d: u32, q: u32)
    requires
        c <= d,
    ensures
        c >> q <= d >> q,
{
    assert(c <= d ==> c >> q <= d >> q) by (bit_vector);
}

/// With 32-bit values, reading a constant's first `m` bits keeps order.
proof fn lemma_const_prefix_monotone(c: u32, d: u32, m: nat)
    requires
        c <= d,
        m <= 32,
    ensures
        const_prefix(c, 32, m) <= const_prefix(d, 32, m),
{
    if m >= 1 {
        lemma_const_prefix_shift(c, m);
        lemma_const_prefix_shift(d, m);
        lemma_shr_monotone(c, d, (32 - m) as u32);
    }
}

/// For 32-bit values, scanning for the intersection of two ranges marks a
/// lane exactly when scanning for each range marks it.
pub proof fn law_range_intersection(bg: BitGroup, s: int, p: u32, c1: u32, c2: u32, c3: u32, c4: u32)
    requires
        bg.k == 32,
        bg.b > 0,
    ensures
        flat_lane_in_range(bg, s, p, if c1 >= c3 { c1 } else { c3 }, if c2 <= c4 { c2 } else { c4 })
            == (flat_lane_in_range(bg, s, p, c1, c2) && flat_lane_in_range(bg, s, p, c3, c4)),
{
    let b = bg.b as int;
    lemma_fundamental_div_mod(32, b);
    let m = compared_bits(32, b);
    assert(0 <= m <= 32) by (nonlinear_arith)
        requires
            m == (32int / b) * b,
            32int == b * (32int / b) + 32int % b,
            0 <= 32int % b,
            b > 0,
    ;
    let lo = if c1 >= c3 { c1 } else { c3 };
    let hi = if c2 <= c4 { c2 } else { c4 };
    if c1 >= c3 {
        lemma_const_prefix_monotone(c3, c1, m as nat);
    } else {
        lemma_const_prefix_monotone(c1, c3, m as nat);
    }
    if c2 <= c4 {
        lemma_const_prefix_monotone(c2, c4, m as nat);
    } else {
        lemma_const_prefix_monotone(c4, c2, m as nat);
    }
}

/// For 32-bit values, the result words of a scan for the intersection of two
/// ranges are the word-wise and of the result words of the two scans.
pub proof fn law_scan_intersection_words(
    bg: BitGroup,
    num: u32,
    c1: u32,
    c2: u32,
    c3: u32,
    c4: u32,
    r1: Seq<u32>,
    r2: Seq<u32>,
    r3: Seq<u32>,
)
    requires
        bg.k == 32,
        bg.b > 0,
        scan_result(bg, num, c1, c2, r1),
        scan_result(bg, num, c3, c4, r2),
        scan_result(bg, num, if c1 >= c3 { c1 } else { c3 }, if c2 <= c4 { c2 } else { c4 }, r3),
    ensures
        r3 == Seq::new((num / 32) as nat, |s: int| r1[s] & r2[s]),
{
    let lo = if c1 >= c3 { c1 } else { c3 };
    let hi = if c2 <= c4 { c2 } else { c4 };
    assert forall|s: int| 0 <= s < num / 32 implies #[trigger] r3[s] == r1[s] & r2[s] by {
        assert forall|p: u32| p < 32 implies #[trigger] bit_of(r3[s], p) == bit_of(r1[s] & r2[s], p) by {
            lemma_and_bits(r1[s], r2[s], p);
            law_range_intersection(bg, s, p, c1, c2, c3, c4);
            assert(bit_of(r1[s], p) == (s < bg.segment_size && flat_lane_in_range(bg, s, p, c1, c2)));
            assert(bit_of(r2[s], p) == (s < bg.segment_size && flat_lane_in_range(bg, s, p, c3, c4)));
            assert(bit_of(r3[s], p) == (s < bg.segment_size && flat_lane_in_range(bg, s, p, lo, hi)));
        }
        lemma_bits_determine(r3[s], r1[s] & r2[s]);
    }
    assert(r3 =~= Seq::new((num / 32) as nat, |s: int| r1[s] & r2[s]));
}

} // verus!

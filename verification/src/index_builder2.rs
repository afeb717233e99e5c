//! Building a small bit-group index: segments of `K` values, of which the
//! `K` lowest bits are sliced, `B` bit positions per group.
use vstd::prelude::*;
use crate::bits::{bit_of, bit_slice, is_bit_slice, lemma_bits_determine, lemma_low_byte_bits};
use crate::bitgroup::index_builder::{group_len, group_words};

verus! {

/// Number of values per segment, and of bits sliced per value.
pub const K: usize = 8;

/// Number of bit positions per bit group.
pub const B: usize = 2;

/// Transposes one segment of `K` values and appends its `K` bit slices to
/// the bit groups: the slice of bit `K - 1 - (g * B + t)` goes to the end of
/// group `g`, in order of `t`. Missing groups are created.
pub fn process_segment(segment: &[u32], bit_groups: &mut Vec<Vec<u32>>)
    requires
        segment.len() >= K,
    ensures
        final(bit_groups).len() == (if old(bit_groups).len() < K / B { K / B } else { old(bit_groups).len() }),
        forall|g: int| 0 <= g < final(bit_groups).len() ==>
            #[trigger] final(bit_groups)[g]@.len() == group_len(old(bit_groups)@, g) + (if g < K / B { B } else { 0 }),
        forall|g: int| 0 <= g < final(bit_groups).len() ==>
            #[trigger] final(bit_groups)[g]@.subrange(0, group_len(old(bit_groups)@, g)) == group_words(old(bit_groups)@, g),
        forall|g: int, t: int| 0 <= g < K / B && 0 <= t < B ==>
            is_bit_slice(
                #[trigger] final(bit_groups)[g]@[group_len(old(bit_groups)@, g) + t],
                segment@,
                K as int,
                (K - 1 - (g * B + t)) as u32,
            ),
{
    let ghost old_groups = bit_groups@;
    let mut i: usize = K;
    while i > 0
        invariant
            i <= K,
            segment.len() >= K,
            bit_groups.len() == (if old_groups.len() < (K - i + B - 1) as int / B as int { (K - i + B - 1) as int / B as int } else { old_groups.len() as int }),
            forall|g: int| 0 <= g < bit_groups.len() ==>
                #[trigger] bit_groups[g]@.len() == group_len(old_groups, g) + (if g * B + B <= K - i { B as int } else if g * B < K - i { K - i - g * B } else { 0 }),
            forall|g: int| 0 <= g < bit_groups.len() ==>
                #[trigger] bit_groups[g]@.subrange(0, group_len(old_groups, g)) == group_words(old_groups, g),
            forall|g: int, t: int| 0 <= g < K / B && 0 <= t < B && g * B + t < K - i ==>
                is_bit_slice(
                    #[trigger] bit_groups[g]@[group_len(old_groups, g) + t],
                    segment@,
                    K as int,
                    (K - 1 - (g * B + t)) as u32,
                ),
        decreases i,
    {
        i -= 1;
        let val: u32 = bit_slice(segment, K, i as u32);
        let bg_index: usize = (K / B) - 1 - (i / B);
        if bg_index >= bit_groups.len() {
            bit_groups.push(Vec::new());
        }
        let ghost before = bit_groups@;
        bit_groups[bg_index].push(val);
        proof {
            assert(bit_groups@ == before.update(bg_index as int, bit_groups[bg_index as int]));
            assert forall|g: int| 0 <= g < bit_groups.len() implies
                #[trigger] bit_groups[g]@.subrange(0, group_len(old_groups, g)) == group_words(old_groups, g) by {
                if g == bg_index {
                    assert(bit_groups[g]@.subrange(0, group_len(old_groups, g)) =~= before[g]@.subrange(0, group_len(old_groups, g)));
                }
            }
        }
    }
}

/// `after` is `before` with every full segment of `K` values of `values`
/// appended in order: the slice of bit `K - 1 - (B * g + t)` of segment `s`
/// at position `B * s + t` after the old words of group `g`, missing groups
/// created and nothing else changed.
pub open spec fn fills_small_groups(before: Seq<Vec<u32>>, after: Seq<Vec<u32>>, values: Seq<u32>) -> bool {
    let n: int = values.len() as int / (K as int);
    &&& after.len() == (if n > 0 && before.len() < K / B { (K / B) as int } else { before.len() as int })
    &&& forall|g: int| 0 <= g < after.len() ==>
        #[trigger] after[g]@.len() == group_len(before, g) + (if g < K / B { B * n } else { 0 })
    &&& forall|g: int| 0 <= g < after.len() ==>
        #[trigger] after[g]@.subrange(0, group_len(before, g)) == group_words(before, g)
    &&& forall|g: int, s: int, t: int| 0 <= g < K / B && 0 <= s < n && 0 <= t < B ==>
        is_bit_slice(
            #[trigger] after[g]@[group_len(before, g) + B * s + t],
            values.subrange(K * s, K * s + K),
            K as int,
            (K - 1 - (B * g + t)) as u32,
        )
}

/// Stores every full segment of `K` values of a column in the bit groups, in
/// order, after what they already hold; a trailing partial segment is left
/// out. Returns the number of segments stored.
pub fn fill_bit_groups(values: &[u32], bit_groups: &mut Vec<Vec<u32>>) -> (segment_counter: usize)
    ensures
        segment_counter == values.len() / K,
        fills_small_groups(old(bit_groups)@, final(bit_groups)@, values@),
{
    let ghost old_groups = bit_groups@;
    let n = values.len() / K;
    let mut segment_counter: usize = 0;
    while segment_counter < n
        invariant
            segment_counter <= n,
            n == values.len() / K,
            bit_groups.len() == (if segment_counter > 0 && old_groups.len() < K / B { (K / B) as int } else { old_groups.len() as int }),
            forall|g: int| 0 <= g < bit_groups.len() ==>
                #[trigger] bit_groups[g]@.len() == group_len(old_groups, g) + (if g < K / B { B * segment_counter } else { 0 }),
            forall|g: int| 0 <= g < bit_groups.len() ==>
                #[trigger] bit_groups[g]@.subrange(0, group_len(old_groups, g)) == group_words(old_groups, g),
            forall|g: int, s: int, t: int| 0 <= g < K / B && 0 <= s < segment_counter && 0 <= t < B ==>
                is_bit_slice(
                    #[trigger] bit_groups[g]@[group_len(old_groups, g) + B * s + t],
                    values@.subrange(K * s, K * s + K),
                    K as int,
                    (K - 1 - (B * g + t)) as u32,
                ),
        decreases n - segment_counter,
    {
        proof {
            assert(K * segment_counter + K <= values.len()) by (nonlinear_arith)
                requires
                    segment_counter < n,
                    n == values.len() / 8,
            ;
        }
        let start = K * segment_counter;
        let segment = slice_range(values, start, start + K);
        let ghost before = bit_groups@;
        process_segment(segment, bit_groups);
        proof {
            assert forall|g: int| 0 <= g < bit_groups.len() implies #[trigger] group_len(before, g) == group_len(old_groups, g)
                + (if g < K / B { B * segment_counter } else { 0 }) by {
            }
            assert forall|g: int| 0 <= g < bit_groups.len() implies
                #[trigger] bit_groups[g]@.subrange(0, group_len(old_groups, g)) == group_words(old_groups, g) by {
                assert(group_len(before, g) >= group_len(old_groups, g));
                assert(bit_groups[g]@.subrange(0, group_len(old_groups, g)) =~= bit_groups[g]@.subrange(0, group_len(before, g)).subrange(0, group_len(old_groups, g)));
                if g < before.len() {
                    assert(group_words(before, g).subrange(0, group_len(old_groups, g)) == group_words(old_groups, g));
                } else {
                    assert(group_len(old_groups, g) == 0);
                }
            }
            assert forall|g: int, s: int, t: int| 0 <= g < K / B && 0 <= s < segment_counter + 1 && 0 <= t < B implies
                is_bit_slice(
                    #[trigger] bit_groups[g]@[group_len(old_groups, g) + B * s + t],
                    values@.subrange(K * s, K * s + K),
                    K as int,
                    (K - 1 - (B * g + t)) as u32,
                ) by {
                assert(group_len(before, g) == group_len(old_groups, g) + B * segment_counter);
                if s < segment_counter {
                    let idx = group_len(old_groups, g) + B * s + t;
                    assert(bit_groups[g]@[idx] == bit_groups[g]@.subrange(0, group_len(before, g))[idx]);
                    assert(bit_groups[g]@[idx] == before[g]@[idx]);
                } else {
                    assert(segment@ == values@.subrange(K * s, K * s + K));
                }
            }
        }
        segment_counter += 1;
    }
    segment_counter
}

/// The small builder slices only the `K` lowest bits of each value: two
/// columns of one length whose values agree in their low byte, stored into
/// no bit groups, give the same bit groups.
pub proof fn law_small_groups_use_low_byte(ga: Seq<Vec<u32>>, gb: Seq<Vec<u32>>, va: Seq<u32>, vb: Seq<u32>)
    requires
        va.len() == vb.len(),
        forall|i: int| 0 <= i < va.len() ==> #[trigger] va[i] & 0xFF == vb[i] & 0xFF,
        fills_small_groups(Seq::empty(), ga, va),
        fills_small_groups(Seq::empty(), gb, vb),
    ensures
        ga.len() == gb.len(),
        forall|g: int| 0 <= g < ga.len() ==> #[trigger] ga[g]@ == gb[g]@,
{
    let e = Seq::<Vec<u32>>::empty();
    let n: int = va.len() as int / (K as int);
    assert forall|g: int| 0 <= g < ga.len() implies #[trigger] ga[g]@ == gb[g]@ by {
        assert(group_len(e, g) == 0);
        assert(g < K / B);
        assert(ga[g]@.len() == B * n);
        assert(gb[g]@.len() == B * n);
        assert forall|x: int| 0 <= x < B * n implies #[trigger] ga[g]@[x] == gb[g]@[x] by {
            let s = x / (B as int);
            let t = x % (B as int);
            assert(x == B * s + t);
            assert(0 <= s < n);
            let i = (K - 1 - (B * g + t)) as u32;
            let sa = va.subrange(K * s, K * s + K);
            let sb = vb.subrange(K * s, K * s + K);
            assert(is_bit_slice(ga[g]@[group_len(e, g) + B * s + t], sa, K as int, i));
            assert(is_bit_slice(gb[g]@[group_len(e, g) + B * s + t], sb, K as int, i));
            assert(K * s + K <= va.len()) by (nonlinear_arith)
                requires
                    0 <= s < n,
                    n == va.len() as int / 8,
            ;
            assert forall|p: u32| p < 32 implies #[trigger] bit_of(ga[g]@[x], p) == bit_of(gb[g]@[x], p) by {
                if p < K {
                    let j = K * s + (K - 1 - p);
                    assert(sa[K - 1 - p] == va[j]);
                    assert(sb[K - 1 - p] == vb[j]);
                    assert(va[j] & 0xFF == vb[j] & 0xFF);
                    lemma_low_byte_bits(va[j], vb[j], i);
                }
            }
            lemma_bits_determine(ga[g]@[x], gb[g]@[x]);
        }
        assert(ga[g]@ =~= gb[g]@);
    }
}

/// The sub-slice `values[start..end]`.
fn slice_range(values: &[u32], start: usize, end: usize) -> (r: &[u32])
    requires
        start <= end <= values.len(),
    ensures
        r@ == values@.subrange(start as int, end as int),
{
    &values[start..end]
}

} // verus!

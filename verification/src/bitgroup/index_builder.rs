//! Building the bit-group index of a column.
use vstd::prelude::*;
use crate::bits::{bit_slice, is_bit_slice};
use crate::bitgroup::BitGroup;

verus! {

/// Number of bits per value.
pub const K: usize = 32;

/// Number of bit positions per bit group.
pub const B: usize = 4;

/// Number of values per segment.
pub const W: usize = 32;

/// Length of bit group `g` of `groups`, counting a missing group as empty.
pub open spec fn group_len(groups: Seq<Vec<u32>>, g: int) -> int {
    if g < groups.len() { groups[g].len() as int } else { 0 }
}

/// Words of bit group `g` of `groups`, a missing group being empty.
pub open spec fn group_words(groups: Seq<Vec<u32>>, g: int) -> Seq<u32> {
    if g < groups.len() { groups[g]@ } else { Seq::empty() }
}

/// `after` is `before` with the `K` bit slices of `segment` appended: the
/// slice of bit `K - 1 - (g * B + t)` at the end of group `g`, in order of
/// `t`, missing groups created and nothing else changed.
pub open spec fn appends_segment(before: Seq<Vec<u32>>, after: Seq<Vec<u32>>, segment: Seq<u32>) -> bool {
    &&& after.len() == (if before.len() < K / B { (K / B) as int } else { before.len() as int })
    &&& forall|g: int| 0 <= g < after.len() ==>
        #[trigger] after[g]@.len() == group_len(before, g) + (if g < K / B { B as int } else { 0 })
    &&& forall|g: int| 0 <= g < after.len() ==>
        #[trigger] after[g]@.subrange(0, group_len(before, g)) == group_words(before, g)
    &&& forall|g: int, t: int| 0 <= g < K / B && 0 <= t < B ==>
        is_bit_slice(#[trigger] after[g]@[group_len(before, g) + t], segment, W as int, (K - 1 - (g * B + t)) as u32)
}

/// Appending the bit slices of segment `q` to the bit groups of the first
/// `q` segments of a column gives the bit groups of its first `q + 1`
/// segments.
pub proof fn law_segment_step_extends_index(before: Seq<Vec<u32>>, after: Seq<Vec<u32>>, values: Seq<u32>, q: int)
    requires
        0 <= q,
        W * q + W <= values.len(),
        is_built_groups(before, values, q),
        appends_segment(before, after, values.subrange(W * q, W * q + W)),
    ensures
        is_built_groups(after, values, q + 1),
{
    assert forall|g: int| 0 <= g < after.len() implies #[trigger] after[g]@.len() == B * (q + 1) by {
        assert(group_len(before, g) == B * q);
    }
    assert forall|g: int, s: int, t: int| 0 <= g < after.len() && 0 <= s < q + 1 && 0 <= t < B implies
        is_bit_slice(
            #[trigger] after[g]@[B * s + t],
            values.subrange(W * s, W * s + W),
            W as int,
            (K - 1 - (B * g + t)) as u32,
        ) by {
        assert(group_len(before, g) == B * q);
        if s < q {
            assert(after[g]@[B * s + t] == after[g]@.subrange(0, group_len(before, g))[B * s + t]);
            assert(after[g]@[B * s + t] == before[g]@[B * s + t]);
        }
    }
}

/// Applying `process_segment` to the segments of a column one after the
/// other, from no bit groups, builds the index of the column: when
/// `steps[q + 1]` is `steps[q]` with the slices of segment `q` appended and
/// `steps[0]` holds no groups, `steps[n]` is the index of the first `n`
/// segments.
pub proof fn law_segment_steps_build_index(steps: Seq<Seq<Vec<u32>>>, values: Seq<u32>, n: int)
    requires
        0 <= n,
        steps.len() == n + 1,
        W * n <= values.len(),
        steps[0].len() == 0,
        forall|q: int| 0 <= q < n ==> appends_segment(#[trigger] steps[q], steps[q + 1], values.subrange(W * q, W * q + W)),
    ensures
        is_built_groups(steps[n], values, n),
    decreases n,
{
    if n > 0 {
        law_segment_steps_build_index(steps.take(n), values, n - 1);
        assert(steps.take(n)[n - 1] == steps[n - 1]);
        assert(appends_segment(steps[n - 1], steps[n], values.subrange(W * (n - 1), W * (n - 1) + W)));
        law_segment_step_extends_index(steps[n - 1], steps[n], values, n - 1);
    }
}

/// Transposes one segment of `W` values and appends its `K` bit slices to
/// the bit groups: the slice of bit `K - 1 - (g * B + t)` goes to the end of
/// group `g`, in order of `t`. Missing groups are created.
pub fn process_segment(segment: &[u32], bit_groups: &mut Vec<Vec<u32>>)
    requires
        segment.len() >= W,
    ensures
        appends_segment(old(bit_groups)@, final(bit_groups)@, segment@),
{
    let ghost old_groups = bit_groups@;
    let mut i: usize = K;
    while i > 0
        invariant
            i <= K,
            segment.len() >= W,
            bit_groups.len() == (if old_groups.len() < (K - i + B - 1) as int / B as int { (K - i + B - 1) as int / B as int } else { old_groups.len() as int }),
            forall|g: int| 0 <= g < bit_groups.len() ==>
                #[trigger] bit_groups[g]@.len() == group_len(old_groups, g) + (if g * B + B <= K - i { B as int } else if g * B < K - i { K - i - g * B } else { 0 }),
            forall|g: int| 0 <= g < bit_groups.len() ==>
                #[trigger] bit_groups[g]@.subrange(0, group_len(old_groups, g)) == group_words(old_groups, g),
            forall|g: int, t: int| 0 <= g < K / B && 0 <= t < B && g * B + t < K - i ==>
                is_bit_slice(
                    #[trigger] bit_groups[g]@[group_len(old_groups, g) + t],
                    segment@,
                    W as int,
                    (K - 1 - (g * B + t)) as u32,
                ),
        decreases i,
    {
        i -= 1;
        let val: u32 = bit_slice(segment, W, i as u32);
        let bg_index: usize = (K / B) - 1 - (i / B);
        if bg_index >= bit_groups.len() {
            bit_groups.push(Vec::new());
        }
        let ghost before = bit_groups@;
        bit_groups[bg_index].push(val);
        proof {
            assert(bit_groups@ == before.update(bg_index as int, bit_groups[bg_index as int]));
            assert forall|g: int| 0 <= g < bit_groups.len() implies
                #[trigger] bit_groups[g]@.subrange(0, group_len(old_groups, g)) == group_words(old_groups, g) by {
                if g == bg_index {
                    assert(bit_groups[g]@.subrange(0, group_len(old_groups, g)) =~= before[g]@.subrange(0, group_len(old_groups, g)));
                }
            }
        }
    }
}


/// `groups` are the bit groups of the first `n` segments of `values`: none
/// when `n` is zero, else `K / B` groups of `B` words per segment, word
/// `B * s + t` of group `g` being the bit slice of bit `K - 1 - (B * g + t)`
/// over segment `s`.
pub open spec fn is_built_groups(groups: Seq<Vec<u32>>, values: Seq<u32>, n: int) -> bool {
    &&& groups.len() == (if n == 0 { 0 } else { K / B })
    &&& forall|g: int| 0 <= g < groups.len() ==> #[trigger] groups[g]@.len() == B * n
    &&& forall|g: int, s: int, t: int| 0 <= g < groups.len() && 0 <= s < n && 0 <= t < B ==>
        is_bit_slice(
            #[trigger] groups[g]@[B * s + t],
            values.subrange(W * s, W * s + W),
            W as int,
            (K - 1 - (B * g + t)) as u32,
        )
}

/// Builds the bit groups of a column: every full segment of `W` values is
/// transposed in turn, a trailing partial segment is left out. The index
/// parameters are set to `K`, `B` and `W` and the segment count to the
/// number of full segments; the laid-out copy is left as it was.
pub fn fill_bit_group(bit_group: &mut BitGroup, values: &[u32])
    ensures
        final(bit_group).k == K,
        final(bit_group).b == B,
        final(bit_group).w == W,
        final(bit_group).segment_size == values.len() / W,
        is_built_groups(final(bit_group).bit_groups@, values@, (values.len() / W) as int),
        final(bit_group).bit_group_box@ == old(bit_group).bit_group_box@,
{
    let mut bit_groups: Vec<Vec<u32>> = Vec::new();
    let mut segment_counter: usize = 0;
    let n = values.len() / W;
    while segment_counter < n
        invariant
            segment_counter <= n,
            n == values.len() / W,
            is_built_groups(bit_groups@, values@, segment_counter as int),
        decreases n - segment_counter,
    {
        proof {
            assert(W * segment_counter + W <= values.len()) by (nonlinear_arith)
                requires
                    segment_counter < n,
                    n == values.len() / 32,
            ;
        }
        let start = W * segment_counter;
        let segment = slice_range(values, start, start + W);
        let ghost before = bit_groups@;
        process_segment(segment, &mut bit_groups);
        proof {
            law_segment_step_extends_index(before, bit_groups@, values@, segment_counter as int);
        }
        segment_counter += 1;
    }
    bit_group.k = K;
    bit_group.b = B;
    bit_group.w = W;
    bit_group.segment_size = segment_counter;
    bit_group.bit_groups = bit_groups;
}

/// The sub-slice `values[start..end]`.
fn slice_range(values: &[u32], start: usize, end: usize) -> (r: &[u32])
    requires
        start <= end <= values.len(),
    ensures
        r@ == values@.subrange(start as int, end as int),
{
    &values[start..end]
}

} // verus!

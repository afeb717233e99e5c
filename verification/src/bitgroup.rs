//! The bit-group index of one column.
use vstd::prelude::*;
use crate::codec::{decode_index, encode_index, group_views, groups_start, index_bytes, parse_groups, parse_header, DecodeError};

pub mod index_builder;
pub mod scanner;

verus! {

/// A column index in bit-group layout.
///
/// `k` is the number of bits per value, `b` the number of bit positions
/// kept together in one bit group, `w` the number of values per segment
/// and `segment_size` the number of segments. `bit_groups[g]` holds, for
/// each segment in turn, the `b` words of bit positions `g * b ..` (counted
/// from the most significant bit); `bit_group_box` holds the same words with
/// the bit groups laid end to end.
pub struct BitGroup {
    pub k: usize,
    pub b: usize,
    pub w: usize,
    pub segment_size: usize,
    pub bit_groups: Vec<Vec<u32>>,
    pub bit_group_box: Box<[u32]>,
}

/// The words of all bit groups laid end to end, in group order.
pub open spec fn groups_flat(groups: Seq<Vec<u32>>) -> Seq<u32>
    decreases groups.len(),
{
    if groups.len() == 0 {
        Seq::empty()
    } else {
        groups_flat(groups.drop_last()) + groups.last()@
    }
}

/// When every group has `len` words, word `j` of group `g` sits at
/// `g * len + j` of the laid-out words.
pub proof fn lemma_groups_flat_index(groups: Seq<Vec<u32>>, len: int, g: int, j: int)
    requires
        forall|i: int| 0 <= i < groups.len() ==> #[trigger] groups[i]@.len() == len,
        0 <= g < groups.len(),
        0 <= j < len,
    ensures
        groups_flat(groups).len() == groups.len() * len,
        groups_flat(groups)[g * len + j] == groups[g]@[j],
    decreases groups.len(),
{
    let last = groups.len() - 1;
    let front = groups.drop_last();
    lemma_groups_flat_len(front, len);
    lemma_groups_flat_len(groups, len);
    assert(g * len + j < groups.len() * len) by (nonlinear_arith)
        requires
            0 <= g < groups.len(),
            0 <= j < len,
    ;
    if g < last {
        lemma_groups_flat_index(front, len, g, j);
        assert(g * len + j < last * len) by (nonlinear_arith)
            requires
                0 <= g < last,
                0 <= j < len,
        ;
        assert(groups_flat(groups)[g * len + j] == groups_flat(front)[g * len + j]);
    } else {
        assert(groups_flat(groups)[g * len + j] == groups.last()@[j]);
    }
}

/// Length of the laid-out words when every group has `len` words.
pub proof fn lemma_groups_flat_len(groups: Seq<Vec<u32>>, len: int)
    requires
        forall|i: int| 0 <= i < groups.len() ==> #[trigger] groups[i]@.len() == len,
        len >= 0,
    ensures
        groups_flat(groups).len() == groups.len() * len,
    decreases groups.len(),
{
    if groups.len() > 0 {
        lemma_groups_flat_len(groups.drop_last(), len);
        assert((groups.len() - 1) * len + len == groups.len() * len) by (nonlinear_arith);
    }
}

/// Packs a vector into a boxed slice with the same elements (std's
/// `Vec::into_boxed_slice`).
#[verifier::external_body]
pub(crate) fn into_boxed_words(v: Vec<u32>) -> (r: Box<[u32]>)
    ensures
        r@ == v@,
{
    v.into_boxed_slice()
}

/// The header fields of an index as stored: `k`, `b`, `w`, `segment_size`.
pub open spec fn header_of(bg: BitGroup) -> Seq<usize> {
    seq![bg.k, bg.b, bg.w, bg.segment_size]
}

impl BitGroup {
    /// Builds an index from its parts, unchanged.
    pub fn new(
        k: usize,
        b: usize,
        w: usize,
        segment_size: usize,
        bit_groups: Vec<Vec<u32>>,
        bit_group_box: Box<[u32]>,
    ) -> (r: BitGroup)
        ensures
            r.k == k,
            r.b == b,
            r.w == w,
            r.segment_size == segment_size,
            r.bit_groups == bit_groups,
            r.bit_group_box@ == bit_group_box@,
    {
        BitGroup { k: k, b: b, w: w, segment_size: segment_size, bit_groups: bit_groups, bit_group_box: bit_group_box }
    }

    /// The stored form of the index: its four parameters, then its bit
    /// groups (the laid-out copy is not stored).
    pub fn to_bytes(&self) -> (out: Vec<u8>)
        ensures
            out@ == index_bytes(header_of(*self), group_views(self.bit_groups@)),
    {
        let header = [self.k, self.b, self.w, self.segment_size];
        let out = encode_index(&header, &self.bit_groups);
        proof {
            assert(header@ =~= header_of(*self));
        }
        out
    }

    /// Reads a stored index: the four parameters, then the bit groups, which
    /// are also laid end to end. Fails exactly when a bit group's words are
    /// cut off.
    pub fn from_bytes(bytes: &[u8]) -> (r: Result<BitGroup, DecodeError>)
        ensures
            match r {
                Ok(bg) => {
                    &&& header_of(bg) == parse_header(bytes@, 4)
                    &&& parse_groups(bytes@, groups_start(bytes@, 4)) == Some(group_views(bg.bit_groups@))
                    &&& bg.bit_group_box@ == groups_flat(bg.bit_groups@)
                },
                Err(_) => parse_groups(bytes@, groups_start(bytes@, 4)) is None,
            },
    {
        match decode_index(bytes, 4) {
            Ok((header, bit_groups, flat)) => {
                let bg = BitGroup {
                    k: header[0],
                    b: header[1],
                    w: header[2],
                    segment_size: header[3],
                    bit_groups: bit_groups,
                    bit_group_box: into_boxed_words(flat),
                };
                proof {
                    assert(header_of(bg) =~= parse_header(bytes@, 4));
                }
                Ok(bg)
            },
            Err(e) => Err(e),
        }
    }
}

} // verus!

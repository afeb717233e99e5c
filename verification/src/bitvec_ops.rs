//! The `bit_vec` crate's bit vector, as the scanners use it.
use vstd::prelude::*;
use bit_vec::BitVec;
use crate::bits::bit_of;
use crate::codec::be_u32_bytes;

verus! {

/// The `bit_vec` crate's `BitVec`; Verus sees nothing inside a value of it,
/// only what `bits_of` and the functions below say.
#[verifier::external_type_specification]
#[verifier::external_body]
#[verifier::reject_recursive_types(Blk)]
pub struct ExBitVec<Blk>(BitVec<Blk>);

/// The bits a bit vector holds, in order.
pub uninterp spec fn bits_of(v: BitVec) -> Seq<bool>;

/// The bits of some bytes, 8 per byte, most significant bit of each byte
/// first.
pub open spec fn bytes_to_bits(bytes: Seq<u8>) -> Seq<bool> {
    Seq::new(8 * bytes.len(), |i: int| (bytes[i / 8] >> ((7 - i % 8) as u8)) & 1 == 1)
}

/// An empty bit vector (`BitVec::new`).
#[verifier::external_body]
pub(crate) fn bitvec_new() -> (r: BitVec)
    ensures
        bits_of(r) == Seq::<bool>::empty(),
{
    BitVec::new()
}

/// Appends one bit (`BitVec::push`, which panics when the length would
/// overflow `usize`).
#[verifier::external_body]
pub(crate) fn bitvec_push(v: &mut BitVec, bit: bool)
    requires
        bits_of(*old(v)).len() < usize::MAX,
    ensures
        bits_of(*final(v)) == bits_of(*old(v)).push(bit),
{
    v.push(bit)
}

/// The bit vector of some bytes, 8 bits per byte with the most significant
/// bit first (`BitVec::from_bytes`, which panics when the bit count would
/// overflow `usize`).
#[verifier::external_body]
pub(crate) fn bitvec_from_bytes(bytes: &[u8]) -> (r: BitVec)
    requires
        8 * bytes.len() <= usize::MAX,
    ensures
        bits_of(r) == bytes_to_bits(bytes@),
{
    BitVec::from_bytes(bytes)
}

/// Moves all bits of `other` to the end of `v`, leaving `other` empty
/// (`BitVec::append`; the bit count must fit in `usize`).
#[verifier::external_body]
pub(crate) fn bitvec_append(v: &mut BitVec, other: &mut BitVec)
    requires
        bits_of(*old(v)).len() + bits_of(*old(other)).len() <= usize::MAX,
    ensures
        bits_of(*final(v)) == bits_of(*old(v)) + bits_of(*old(other)),
        bits_of(*final(other)) == Seq::<bool>::empty(),
{
    v.append(other)
}


/// The 32 bits of a word, most significant first.
pub open spec fn word_bits(w: u32) -> Seq<bool> {
    Seq::new(32, |i: int| bit_of(w, (31 - i) as u32))
}

/// The big-endian bytes of a word, most significant first.
fn word_to_be_bytes(w: u32) -> (r: [u8; 4])
    ensures
        r@ == be_u32_bytes(w),
{
    let r = [((w >> 24u32) & 0xff) as u8, ((w >> 16u32) & 0xff) as u8, ((w >> 8u32) & 0xff) as u8, (w & 0xff) as u8];
    proof {
        assert(r@ =~= be_u32_bytes(w));
    }
    r
}

/// Bit `r` of byte `q` of a word's big-endian bytes, counted from the
/// byte's most significant bit, is bit `31 - (8 * q + r)` of the word.
proof fn lemma_be_byte_bits(w: u32, q: int, r: int)
    requires
        0 <= q < 4,
        0 <= r < 8,
    ensures
        ((be_u32_bytes(w)[q] >> ((7 - r) as u8)) & 1 == 1) == bit_of(w, (31 - (8 * q + r)) as u32),
{
    let rr = (7 - r) as u8;
    let sh = (24 - 8 * q) as u32;
    let p = (31 - (8 * q + r)) as u32;
    if q < 3 {
        assert(be_u32_bytes(w)[q] == ((w >> sh) & 0xff) as u8);
        assert((((((w >> sh) & 0xff) as u8) >> rr) & 1 == 1) == ((w >> p) & 1 == 1)) by (bit_vector)
            requires
                rr < 8,
                sh <= 24,
                p == sh + rr,
        ;
    } else {
        assert(be_u32_bytes(w)[q] == (w & 0xff) as u8);
        assert(((((w & 0xff) as u8) >> rr) & 1 == 1) == ((w >> p) & 1 == 1)) by (bit_vector)
            requires
                rr < 8,
                p == rr,
        ;
    }
}

/// Appends the 32 bits of a word, most significant first, by way of its
/// big-endian bytes.
pub(crate) fn append_word_bits(v: &mut BitVec, w: u32)
    requires
        bits_of(*old(v)).len() + 32 <= usize::MAX,
    ensures
        bits_of(*final(v)) == bits_of(*old(v)) + word_bits(w),
{
    let bytes = word_to_be_bytes(w);
    let mut tail = bitvec_from_bytes(&bytes);
    proof {
        assert forall|i: int| 0 <= i < 32 implies #[trigger] bytes_to_bits(bytes@)[i] == word_bits(w)[i] by {
            lemma_be_byte_bits(w, i / 8, i % 8);
            assert(8 * (i / 8) + i % 8 == i);
        }
        assert(bytes_to_bits(bytes@) =~= word_bits(w));
    }
    bitvec_append(v, &mut tail);
}

} // verus!

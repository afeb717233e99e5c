//! Facts about single bits of 32-bit words, proved with the bit-vector solver.
use vstd::prelude::*;

verus! {

/// Bit `p` of `x` (bit 0 is the least significant one).
pub open spec fn bit_of(x: u32, p: u32) -> bool {
    (x >> p) & 1 == 1
}

/// Shifting a word left by one and or-ing a bit into position 0 moves
/// every bit one place up and puts the new bit at the bottom.
pub proof fn lemma_shift_in_bit(v: u32, x: u32, i: u32, p: u32)
    requires
        i < 32,
        p < 32,
    ensures
        p == 0 ==> (bit_of((v << 1u32) | ((x >> i) & 1), p) == bit_of(x, i)),
        p > 0 ==> (bit_of((v << 1u32) | ((x >> i) & 1), p) == bit_of(v, (p - 1) as u32)),
{
    assert(p == 0 ==> ((((v << 1u32) | ((x >> i) & 1)) >> p) & 1 == 1) == ((x >> i) & 1 == 1))
        by (bit_vector);
    if p > 0 {
        let q: u32 = (p - 1) as u32;
        assert(((((v << 1u32) | ((x >> i) & 1)) >> p) & 1 == 1) == ((v >> q) & 1 == 1)) by (bit_vector)
            requires
                p == q + 1,
                q < 31,
        ;
    }
}


/// The zero word has no bit set.
pub proof fn lemma_zero_bits(p: u32)
    requires
        p < 32,
    ensures
        !bit_of(0u32, p),
{
    assert(((0u32 >> p) & 1 == 1) == false) by (bit_vector);
}

/// `word` is the bit slice of bit position `i` over the first `n` words of
/// `segment`: its bit `n - 1 - j` is bit `i` of `segment[j]` (so the first
/// word lands in the highest used bit), and every other bit is clear.
pub open spec fn is_bit_slice(word: u32, segment: Seq<u32>, n: int, i: u32) -> bool {
    forall|p: u32| p < 32 ==> #[trigger] bit_of(word, p) == (p < n && bit_of(segment[n - 1 - p], i))
}

/// Gathers bit `i` of the first `len` words of `segment` into one word, the
/// first word's bit ending up most significant.
pub fn bit_slice(segment: &[u32], len: usize, i: u32) -> (val: u32)
    requires
        len <= segment.len(),
        i < 32,
    ensures
        is_bit_slice(val, segment@, len as int, i),
{
    let mut val: u32 = 0;
    let mut j: usize = 0;
    proof {
        assert forall|p: u32| p < 32 implies #[trigger] bit_of(val, p) == (p < 0 && bit_of(segment@[0 - 1 - p], i)) by {
            lemma_zero_bits(p);
        }
    }
    while j < len
        invariant
            j <= len,
            len <= segment.len(),
            i < 32,
            is_bit_slice(val, segment@, j as int, i),
        decreases len - j,
    {
        let ghost prev = val;
        val = (val << 1u32) | ((segment[j] >> i) & 1);
        proof {
            assert forall|p: u32| p < 32 implies #[trigger] bit_of(val, p) == (p < j + 1 && bit_of(
                segment@[j + 1 - 1 - p],
                i,
            )) by {
                lemma_shift_in_bit(prev, segment@[j as int], i, p);
                if p > 0 {
                    assert(bit_of(prev, (p - 1) as u32) == ((p - 1) < j && bit_of(
                        segment@[j - 1 - (p - 1)],
                        i,
                    )));
                }
            }
        }
        j += 1;
    }
    val
}


/// Every bit of the all-ones word is set.
pub proof fn lemma_ones_bits(p: u32)
    requires
        p < 32,
    ensures
        bit_of(!0u32, p),
{
    assert(((!0u32 >> p) & 1 == 1) == true) by (bit_vector)
        requires
            p < 32,
    ;
}

/// Testing `c & (1 << i)` against zero reads bit `i` of `c`.
pub proof fn lemma_single_bit_mask(c: u32, i: u32)
    requires
        i < 32,
    ensures
        ((c & (1u32 << i)) > 0) == bit_of(c, i),
{
    assert(((c & (1u32 << i)) > 0) == ((c >> i) & 1 == 1)) by (bit_vector)
        requires
            i < 32,
    ;
}

/// A word is zero exactly when none of its 32 bits is set.
pub proof fn lemma_zero_iff_no_bits(x: u32)
    ensures
        (x == 0) == (forall|p: u32| p < 32 ==> !#[trigger] bit_of(x, p)),
{
    if x == 0 {
        assert forall|p: u32| p < 32 implies !#[trigger] bit_of(x, p) by {
            lemma_zero_bits(p);
        }
    } else {
        assert(bit_of(x, 0u32) || bit_of(x, 1u32) || bit_of(x, 2u32) || bit_of(x, 3u32)
            || bit_of(x, 4u32) || bit_of(x, 5u32) || bit_of(x, 6u32) || bit_of(x, 7u32)
            || bit_of(x, 8u32) || bit_of(x, 9u32) || bit_of(x, 10u32) || bit_of(x, 11u32)
            || bit_of(x, 12u32) || bit_of(x, 13u32) || bit_of(x, 14u32) || bit_of(x, 15u32)
            || bit_of(x, 16u32) || bit_of(x, 17u32) || bit_of(x, 18u32) || bit_of(x, 19u32)
            || bit_of(x, 20u32) || bit_of(x, 21u32) || bit_of(x, 22u32) || bit_of(x, 23u32)
            || bit_of(x, 24u32) || bit_of(x, 25u32) || bit_of(x, 26u32) || bit_of(x, 27u32)
            || bit_of(x, 28u32) || bit_of(x, 29u32) || bit_of(x, 30u32) || bit_of(x, 31u32)) by (bit_vector)
            requires
                x != 0,
        ;
    }
}

/// A word is fixed by its 32 bits.
pub proof fn lemma_bits_determine(x: u32, y: u32)
    requires
        forall|p: u32| p < 32 ==> #[trigger] bit_of(x, p) == bit_of(y, p),
    ensures
        x == y,
{
    assert(bit_of(x, 0u32) == bit_of(y, 0u32));
    assert(bit_of(x, 1u32) == bit_of(y, 1u32));
    assert(bit_of(x, 2u32) == bit_of(y, 2u32));
    assert(bit_of(x, 3u32) == bit_of(y, 3u32));
    assert(bit_of(x, 4u32) == bit_of(y, 4u32));
    assert(bit_of(x, 5u32) == bit_of(y, 5u32));
    assert(bit_of(x, 6u32) == bit_of(y, 6u32));
    assert(bit_of(x, 7u32) == bit_of(y, 7u32));
    assert(bit_of(x, 8u32) == bit_of(y, 8u32));
    assert(bit_of(x, 9u32) == bit_of(y, 9u32));
    assert(bit_of(x, 10u32) == bit_of(y, 10u32));
    assert(bit_of(x, 11u32) == bit_of(y, 11u32));
    assert(bit_of(x, 12u32) == bit_of(y, 12u32));
    assert(bit_of(x, 13u32) == bit_of(y, 13u32));
    assert(bit_of(x, 14u32) == bit_of(y, 14u32));
    assert(bit_of(x, 15u32) == bit_of(y, 15u32));
    assert(bit_of(x, 16u32) == bit_of(y, 16u32));
    assert(bit_of(x, 17u32) == bit_of(y, 17u32));
    assert(bit_of(x, 18u32) == bit_of(y, 18u32));
    assert(bit_of(x, 19u32) == bit_of(y, 19u32));
    assert(bit_of(x, 20u32) == bit_of(y, 20u32));
    assert(bit_of(x, 21u32) == bit_of(y, 21u32));
    assert(bit_of(x, 22u32) == bit_of(y, 22u32));
    assert(bit_of(x, 23u32) == bit_of(y, 23u32));
    assert(bit_of(x, 24u32) == bit_of(y, 24u32));
    assert(bit_of(x, 25u32) == bit_of(y, 25u32));
    assert(bit_of(x, 26u32) == bit_of(y, 26u32));
    assert(bit_of(x, 27u32) == bit_of(y, 27u32));
    assert(bit_of(x, 28u32) == bit_of(y, 28u32));
    assert(bit_of(x, 29u32) == bit_of(y, 29u32));
    assert(bit_of(x, 30u32) == bit_of(y, 30u32));
    assert(bit_of(x, 31u32) == bit_of(y, 31u32));
    assert(x == y) by (bit_vector)
        requires
            ((x >> 0u32) & 1 == 1) == ((y >> 0u32) & 1 == 1),
            ((x >> 1u32) & 1 == 1) == ((y >> 1u32) & 1 == 1),
            ((x >> 2u32) & 1 == 1) == ((y >> 2u32) & 1 == 1),
            ((x >> 3u32) & 1 == 1) == ((y >> 3u32) & 1 == 1),
            ((x >> 4u32) & 1 == 1) == ((y >> 4u32) & 1 == 1),
            ((x >> 5u32) & 1 == 1) == ((y >> 5u32) & 1 == 1),
            ((x >> 6u32) & 1 == 1) == ((y >> 6u32) & 1 == 1),
            ((x >> 7u32) & 1 == 1) == ((y >> 7u32) & 1 == 1),
            ((x >> 8u32) & 1 == 1) == ((y >> 8u32) & 1 == 1),
            ((x >> 9u32) & 1 == 1) == ((y >> 9u32) & 1 == 1),
            ((x >> 10u32) & 1 == 1) == ((y >> 10u32) & 1 == 1),
            ((x >> 11u32) & 1 == 1) == ((y >> 11u32) & 1 == 1),
            ((x >> 12u32) & 1 == 1) == ((y >> 12u32) & 1 == 1),
            ((x >> 13u32) & 1 == 1) == ((y >> 13u32) & 1 == 1),
            ((x >> 14u32) & 1 == 1) == ((y >> 14u32) & 1 == 1),
            ((x >> 15u32) & 1 == 1) == ((y >> 15u32) & 1 == 1),
            ((x >> 16u32) & 1 == 1) == ((y >> 16u32) & 1 == 1),
            ((x >> 17u32) & 1 == 1) == ((y >> 17u32) & 1 == 1),
            ((x >> 18u32) & 1 == 1) == ((y >> 18u32) & 1 == 1),
            ((x >> 19u32) & 1 == 1) == ((y >> 19u32) & 1 == 1),
            ((x >> 20u32) & 1 == 1) == ((y >> 20u32) & 1 == 1),
            ((x >> 21u32) & 1 == 1) == ((y >> 21u32) & 1 == 1),
            ((x >> 22u32) & 1 == 1) == ((y >> 22u32) & 1 == 1),
            ((x >> 23u32) & 1 == 1) == ((y >> 23u32) & 1 == 1),
            ((x >> 24u32) & 1 == 1) == ((y >> 24u32) & 1 == 1),
            ((x >> 25u32) & 1 == 1) == ((y >> 25u32) & 1 == 1),
            ((x >> 26u32) & 1 == 1) == ((y >> 26u32) & 1 == 1),
            ((x >> 27u32) & 1 == 1) == ((y >> 27u32) & 1 == 1),
            ((x >> 28u32) & 1 == 1) == ((y >> 28u32) & 1 == 1),
            ((x >> 29u32) & 1 == 1) == ((y >> 29u32) & 1 == 1),
            ((x >> 30u32) & 1 == 1) == ((y >> 30u32) & 1 == 1),
            ((x >> 31u32) & 1 == 1) == ((y >> 31u32) & 1 == 1),
    ;
}

/// Bits of the or of two words.
pub proof fn lemma_or_bits(x: u32, y: u32, p: u32)
    requires
        p < 32,
    ensures
        bit_of(x | y, p) == (bit_of(x, p) || bit_of(y, p)),
{
    assert((((x | y) >> p) & 1 == 1) == (((x >> p) & 1 == 1) || ((y >> p) & 1 == 1))) by (bit_vector);
}

/// The low 8 bits of a word are fixed by the word's low byte.
pub proof fn lemma_low_byte_bits(x: u32, y: u32, p: u32)
    requires
        p < 8,
        x & 0xFF == y & 0xFF,
    ensures
        bit_of(x, p) == bit_of(y, p),
{
    assert(((x >> p) & 1 == 1) == ((y >> p) & 1 == 1)) by (bit_vector)
        requires
            p < 8,
            x & 0xFF == y & 0xFF,
    ;
}

/// Bits of the and of two words.
pub proof fn lemma_and_bits(x: u32, y: u32, p: u32)
    requires
        p < 32,
    ensures
        bit_of(x & y, p) == (bit_of(x, p) && bit_of(y, p)),
{
    assert((((x & y) >> p) & 1 == 1) == (((x >> p) & 1 == 1) && ((y >> p) & 1 == 1))) by (bit_vector);
}

/// Or-ing into a zero word gives the other word.
pub proof fn lemma_or_zero(x: u32)
    ensures
        0u32 | x == x,
{
    assert(0u32 | x == x) by (bit_vector);
}

/// One step of the bit-parallel comparison, bit by bit: with `c1` and `c2`
/// each either all zeros or all ones, the greater / less / equal masks
/// evolve lane by lane as a most-significant-bit-first comparison does.
pub proof fn lemma_compare_step_bits(
    mgt: u32,
    mlt: u32,
    meq1: u32,
    meq2: u32,
    x: u32,
    c1: u32,
    c2: u32,
    p: u32,
)
    requires
        p < 32,
    ensures
        bit_of(mgt | (meq1 & (!c1) & x), p) == (bit_of(mgt, p) || (bit_of(meq1, p) && !bit_of(c1, p) && bit_of(x, p))),
        bit_of(mlt | (meq2 & c2 & (!x)), p) == (bit_of(mlt, p) || (bit_of(meq2, p) && bit_of(c2, p) && !bit_of(x, p))),
        bit_of(meq1 & !(x ^ c1), p) == (bit_of(meq1, p) && (bit_of(x, p) == bit_of(c1, p))),
        bit_of(meq2 & !(x ^ c2), p) == (bit_of(meq2, p) && (bit_of(x, p) == bit_of(c2, p))),
{
    assert((((mgt | (meq1 & (!c1) & x)) >> p) & 1 == 1) == (((mgt >> p) & 1 == 1) || (((meq1 >> p) & 1 == 1) && !((c1 >> p) & 1 == 1) && ((x >> p) & 1 == 1)))) by (bit_vector);
    assert((((mlt | (meq2 & c2 & (!x))) >> p) & 1 == 1) == (((mlt >> p) & 1 == 1) || (((meq2 >> p) & 1 == 1) && ((c2 >> p) & 1 == 1) && !((x >> p) & 1 == 1)))) by (bit_vector);
    assert((((meq1 & !(x ^ c1)) >> p) & 1 == 1) == (((meq1 >> p) & 1 == 1) && (((x >> p) & 1 == 1) == ((c1 >> p) & 1 == 1)))) by (bit_vector);
    assert((((meq2 & !(x ^ c2)) >> p) & 1 == 1) == (((meq2 >> p) & 1 == 1) && (((x >> p) & 1 == 1) == ((c2 >> p) & 1 == 1)))) by (bit_vector);
}

} // verus!

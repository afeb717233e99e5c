//! The byte layout of a stored index: a header of 8-byte big-endian fields,
//! then one record per bit group (an 8-byte big-endian word count followed
//! by the words, 4 bytes big-endian each). The end of the data, or a zero
//! word count, ends the list of groups.
use vstd::prelude::*;
use vstd::arithmetic::div_mod::lemma_fundamental_div_mod_converse;
use byteorder::{BigEndian, ByteOrder};
use crate::bitgroup::groups_flat;

verus! {

/// The 4 bytes of `v`, most significant first.
pub open spec fn be_u32_bytes(v: u32) -> Seq<u8> {
    seq![((v >> 24u32) & 0xff) as u8, ((v >> 16u32) & 0xff) as u8, ((v >> 8u32) & 0xff) as u8, (v & 0xff) as u8]
}

/// The number whose big-endian bytes are the first 4 of `b`.
pub open spec fn be_u32_value(b: Seq<u8>) -> u32 {
    ((b[0] as u32) << 24u32) | ((b[1] as u32) << 16u32) | ((b[2] as u32) << 8u32) | (b[3] as u32)
}

/// The 8 bytes of `v`, most significant first.
pub open spec fn be_u64_bytes(v: u64) -> Seq<u8> {
    seq![
        ((v >> 56u64) & 0xff) as u8,
        ((v >> 48u64) & 0xff) as u8,
        ((v >> 40u64) & 0xff) as u8,
        ((v >> 32u64) & 0xff) as u8,
        ((v >> 24u64) & 0xff) as u8,
        ((v >> 16u64) & 0xff) as u8,
        ((v >> 8u64) & 0xff) as u8,
        (v & 0xff) as u8,
    ]
}

/// The number whose big-endian bytes are the first 8 of `b`.
pub open spec fn be_u64_value(b: Seq<u8>) -> u64 {
    ((b[0] as u64) << 56u64) | ((b[1] as u64) << 48u64) | ((b[2] as u64) << 40u64) | ((b[3] as u64) << 32u64)
        | ((b[4] as u64) << 24u64) | ((b[5] as u64) << 16u64) | ((b[6] as u64) << 8u64) | (b[7] as u64)
}

/// Reading back the bytes of a 32-bit word gives the word.
pub proof fn lemma_u32_roundtrip(v: u32)
    ensures
        be_u32_value(be_u32_bytes(v)) == v,
{
    let b = be_u32_bytes(v);
    let b0 = ((v >> 24u32) & 0xff) as u8;
    let b1 = ((v >> 16u32) & 0xff) as u8;
    let b2 = ((v >> 8u32) & 0xff) as u8;
    let b3 = (v & 0xff) as u8;
    assert(b[0] == b0 && b[1] == b1 && b[2] == b2 && b[3] == b3);
    assert(((b0 as u32) << 24u32) | ((b1 as u32) << 16u32) | ((b2 as u32) << 8u32) | (b3 as u32) == v) by (bit_vector)
        requires
            b0 == ((v >> 24u32) & 0xff) as u8,
            b1 == ((v >> 16u32) & 0xff) as u8,
            b2 == ((v >> 8u32) & 0xff) as u8,
            b3 == (v & 0xff) as u8,
    ;
}

/// Reading back the bytes of a 64-bit word gives the word.
pub proof fn lemma_u64_roundtrip(v: u64)
    ensures
        be_u64_value(be_u64_bytes(v)) == v,
{
    let b = be_u64_bytes(v);
    let b0 = ((v >> 56u64) & 0xff) as u8;
    let b1 = ((v >> 48u64) & 0xff) as u8;
    let b2 = ((v >> 40u64) & 0xff) as u8;
    let b3 = ((v >> 32u64) & 0xff) as u8;
    let b4 = ((v >> 24u64) & 0xff) as u8;
    let b5 = ((v >> 16u64) & 0xff) as u8;
    let b6 = ((v >> 8u64) & 0xff) as u8;
    let b7 = (v & 0xff) as u8;
    assert(b[0] == b0 && b[1] == b1 && b[2] == b2 && b[3] == b3 && b[4] == b4 && b[5] == b5 && b[6] == b6 && b[7] == b7);
    assert(((b0 as u64) << 56u64) | ((b1 as u64) << 48u64) | ((b2 as u64) << 40u64) | ((b3 as u64) << 32u64)
        | ((b4 as u64) << 24u64) | ((b5 as u64) << 16u64) | ((b6 as u64) << 8u64) | (b7 as u64) == v) by (bit_vector)
        requires
            b0 == ((v >> 56u64) & 0xff) as u8,
            b1 == ((v >> 48u64) & 0xff) as u8,
            b2 == ((v >> 40u64) & 0xff) as u8,
            b3 == ((v >> 32u64) & 0xff) as u8,
            b4 == ((v >> 24u64) & 0xff) as u8,
            b5 == ((v >> 16u64) & 0xff) as u8,
            b6 == ((v >> 8u64) & 0xff) as u8,
            b7 == (v & 0xff) as u8,
    ;
}

/// Reads a big-endian `u32` from 4 bytes (`byteorder`'s `BigEndian::read_u32`).
#[verifier::external_body]
fn be_read_u32(buf: [u8; 4]) -> (r: u32)
    ensures
        r == be_u32_value(buf@),
{
    BigEndian::read_u32(&buf)
}

/// Writes a `u32` as 4 big-endian bytes (`byteorder`'s `BigEndian::write_u32`).
#[verifier::external_body]
fn be_write_u32(n: u32) -> (r: [u8; 4])
    ensures
        r@ == be_u32_bytes(n),
{
    let mut buf = [0u8; 4];
    BigEndian::write_u32(&mut buf, n);
    buf
}

/// Reads a big-endian `u64` from 8 bytes (`byteorder`'s `BigEndian::read_u64`).
#[verifier::external_body]
fn be_read_u64(buf: [u8; 8]) -> (r: u64)
    ensures
        r == be_u64_value(buf@),
{
    BigEndian::read_u64(&buf)
}

/// Writes a `u64` as 8 big-endian bytes (`byteorder`'s `BigEndian::write_u64`).
#[verifier::external_body]
fn be_write_u64(n: u64) -> (r: [u8; 8])
    ensures
        r@ == be_u64_bytes(n),
{
    let mut buf = [0u8; 8];
    BigEndian::write_u64(&mut buf, n);
    buf
}

/// The bytes of a list of words, 4 per word.
pub open spec fn words_bytes(ws: Seq<u32>) -> Seq<u8> {
    Seq::new(4 * ws.len(), |i: int| be_u32_bytes(ws[i / 4])[i % 4])
}

/// The record of one bit group: its word count, then its words.
pub open spec fn group_record(ws: Seq<u32>) -> Seq<u8> {
    be_u64_bytes(ws.len() as u64) + words_bytes(ws)
}

/// The records of a list of bit groups, in order.
pub open spec fn groups_bytes(gs: Seq<Seq<u32>>) -> Seq<u8>
    decreases gs.len(),
{
    if gs.len() == 0 {
        Seq::empty()
    } else {
        group_record(gs[0]) + groups_bytes(gs.drop_first())
    }
}

/// The header fields, 8 bytes each.
pub open spec fn header_bytes(hs: Seq<usize>) -> Seq<u8>
    decreases hs.len(),
{
    if hs.len() == 0 {
        Seq::empty()
    } else {
        be_u64_bytes(hs[0] as u64) + header_bytes(hs.drop_first())
    }
}

/// The stored form of an index with header fields `hs` and bit groups `gs`.
pub open spec fn index_bytes(hs: Seq<usize>, gs: Seq<Seq<u32>>) -> Seq<u8> {
    header_bytes(hs) + groups_bytes(gs)
}

/// The views of a list of word vectors.
pub open spec fn group_views(groups: Seq<Vec<u32>>) -> Seq<Seq<u32>> {
    Seq::new(groups.len(), |i: int| groups[i]@)
}

/// The 8 bytes from `pos` on, missing bytes read as zero.
pub open spec fn padded_field(bytes: Seq<u8>, pos: int) -> Seq<u8> {
    Seq::new(8, |i: int| if pos + i < bytes.len() { bytes[pos + i] } else { 0u8 })
}

/// The 8-byte field read at `pos`; bytes past the end read as zero.
pub open spec fn field_at(bytes: Seq<u8>, pos: int) -> u64 {
    be_u64_value(padded_field(bytes, pos))
}

/// Where reading continues after the field at `pos`.
pub open spec fn after_field(bytes: Seq<u8>, pos: int) -> int {
    if pos + 8 <= bytes.len() { pos + 8 } else { bytes.len() as int }
}

/// The `n` words stored from `pos` on.
pub open spec fn words_at(bytes: Seq<u8>, pos: int, n: int) -> Seq<u32> {
    Seq::new(n as nat, |j: int| be_u32_value(bytes.subrange(pos + 4 * j, pos + 4 * j + 4)))
}

/// The bit groups stored from `pos` on, read until the data ends or a zero
/// word count; `None` when a group's words are cut off.
pub open spec fn parse_groups(bytes: Seq<u8>, pos: int) -> Option<Seq<Seq<u32>>>
    decreases bytes.len() - pos,
{
    if pos < 0 || pos >= bytes.len() {
        Some(Seq::empty())
    } else {
        let size = field_at(bytes, pos) as int;
        let start = after_field(bytes, pos);
        if size == 0 {
            Some(Seq::empty())
        } else if start + 4 * size > bytes.len() {
            None
        } else {
            match parse_groups(bytes, start + 4 * size) {
                Some(rest) => Some(seq![words_at(bytes, start, size)] + rest),
                None => None,
            }
        }
    }
}

/// The header fields read from the start of the data.
pub open spec fn parse_header(bytes: Seq<u8>, count: int) -> Seq<usize> {
    Seq::new(count as nat, |i: int| field_at(bytes, 8 * i) as usize)
}

/// Where the bit groups start after `count` header fields.
pub open spec fn groups_start(bytes: Seq<u8>, count: int) -> int {
    if 8 * count <= bytes.len() { 8 * count } else { bytes.len() as int }
}

/// Why stored index data could not be read.
pub enum DecodeError {
    /// A bit group announces more words than the data holds.
    Truncated,
}

/// Appends the 8 bytes of a header field or word count.
pub fn push_usize(out: &mut Vec<u8>, v: usize)
    ensures
        final(out)@ == old(out)@ + be_u64_bytes(v as u64),
{
    let arr = be_write_u64(v as u64);
    let mut i: usize = 0;
    let ghost start = out@;
    while i < 8
        invariant
            i <= 8,
            arr@ == be_u64_bytes(v as u64),
            out@ == start + arr@.take(i as int),
        decreases 8 - i,
    {
        out.push(arr[i]);
        proof {
            assert(arr@.take(i + 1) == arr@.take(i as int).push(arr@[i as int]));
        }
        i += 1;
    }
    proof {
        assert(arr@.take(8) == arr@);
    }
}

/// Appends the 4 bytes of a word.
fn push_u32(out: &mut Vec<u8>, v: u32)
    ensures
        final(out)@ == old(out)@ + be_u32_bytes(v),
{
    let arr = be_write_u32(v);
    let mut i: usize = 0;
    let ghost start = out@;
    while i < 4
        invariant
            i <= 4,
            arr@ == be_u32_bytes(v),
            out@ == start + arr@.take(i as int),
        decreases 4 - i,
    {
        out.push(arr[i]);
        proof {
            assert(arr@.take(i + 1) == arr@.take(i as int).push(arr@[i as int]));
        }
        i += 1;
    }
    proof {
        assert(arr@.take(4) == arr@);
    }
}

/// Appending one more record to the records of some groups.
proof fn lemma_groups_bytes_push(gs: Seq<Seq<u32>>, g: Seq<u32>)
    ensures
        groups_bytes(gs.push(g)) == groups_bytes(gs) + group_record(g),
    decreases gs.len(),
{
    if gs.len() == 0 {
        assert(gs.push(g).drop_first() =~= Seq::<Seq<u32>>::empty());
        assert(groups_bytes(gs.push(g).drop_first()) == Seq::<u8>::empty());
        assert(groups_bytes(gs.push(g)) =~= group_record(g));
    } else {
        assert(gs.push(g).drop_first() =~= gs.drop_first().push(g));
        lemma_groups_bytes_push(gs.drop_first(), g);
        assert(groups_bytes(gs.push(g)) =~= groups_bytes(gs) + group_record(g));
    }
}

/// Appending one more header field.
proof fn lemma_header_bytes_push(hs: Seq<usize>, h: usize)
    ensures
        header_bytes(hs.push(h)) == header_bytes(hs) + be_u64_bytes(h as u64),
    decreases hs.len(),
{
    if hs.len() == 0 {
        assert(hs.push(h).drop_first() =~= Seq::<usize>::empty());
        assert(header_bytes(hs.push(h).drop_first()) == Seq::<u8>::empty());
        assert(header_bytes(hs.push(h)) =~= be_u64_bytes(h as u64));
    } else {
        assert(hs.push(h).drop_first() =~= hs.drop_first().push(h));
        lemma_header_bytes_push(hs.drop_first(), h);
        assert(header_bytes(hs.push(h)) =~= header_bytes(hs) + be_u64_bytes(h as u64));
    }
}

/// The stored form of an index with the given header fields and bit groups.
pub fn encode_index(header: &[usize], bit_groups: &Vec<Vec<u32>>) -> (out: Vec<u8>)
    ensures
        out@ == index_bytes(header@, group_views(bit_groups@)),
{
    let mut out: Vec<u8> = Vec::new();
    let mut i: usize = 0;
    while i < header.len()
        invariant
            i <= header.len(),
            out@ == header_bytes(header@.take(i as int)),
        decreases header.len() - i,
    {
        proof {
            lemma_header_bytes_push(header@.take(i as int), header@[i as int]);
            assert(header@.take(i + 1) == header@.take(i as int).push(header@[i as int]));
        }
        push_usize(&mut out, header[i]);
        i += 1;
    }
    proof {
        assert(header@.take(header.len() as int) == header@);
    }
    let ghost head = out@;
    let mut g: usize = 0;
    while g < bit_groups.len()
        invariant
            g <= bit_groups.len(),
            head == header_bytes(header@),
            out@ == head + groups_bytes(group_views(bit_groups@).take(g as int)),
        decreases bit_groups.len() - g,
    {
        let group = &bit_groups[g];
        let ghost before = out@;
        push_usize(&mut out, group.len());
        let mut j: usize = 0;
        while j < group.len()
            invariant
                j <= group.len(),
                out@ == before + be_u64_bytes(group.len() as u64) + words_bytes(group@.take(j as int)),
            decreases group.len() - j,
        {
            let ghost mid = out@;
            push_u32(&mut out, group[j]);
            proof {
                let ws = group@.take(j + 1);
                assert(words_bytes(ws) =~= words_bytes(group@.take(j as int)) + be_u32_bytes(group@[j as int]));
            }
            j += 1;
        }
        proof {
            assert(group@.take(group.len() as int) == group@);
            let gv = group_views(bit_groups@);
            assert(gv.take(g + 1) == gv.take(g as int).push(gv[g as int]));
            lemma_groups_bytes_push(gv.take(g as int), gv[g as int]);
            assert(out@ =~= head + groups_bytes(gv.take(g + 1)));
        }
        g += 1;
    }
    proof {
        assert(group_views(bit_groups@).take(bit_groups.len() as int) == group_views(bit_groups@));
    }
    out
}


/// Past the end of the data a field reads as zero.
proof fn lemma_zero_field(bytes: Seq<u8>, pos: int)
    requires
        pos >= bytes.len(),
    ensures
        field_at(bytes, pos) == 0,
{
    let f = padded_field(bytes, pos);
    assert(f[0] == 0 && f[1] == 0 && f[2] == 0 && f[3] == 0 && f[4] == 0 && f[5] == 0 && f[6] == 0 && f[7] == 0);
    let z: u8 = 0;
    assert(((z as u64) << 56u64) | ((z as u64) << 48u64) | ((z as u64) << 40u64) | ((z as u64) << 32u64)
        | ((z as u64) << 24u64) | ((z as u64) << 16u64) | ((z as u64) << 8u64) | (z as u64) == 0u64) by (bit_vector)
        requires
            z == 0,
    ;
}

/// Byte `pos + i` of the data, or zero past its end.
fn byte_or_zero(bytes: &[u8], pos: usize, i: usize) -> (r: u8)
    requires
        pos <= bytes.len(),
        i < 8,
    ensures
        r == padded_field(bytes@, pos as int)[i as int],
{
    if i < bytes.len() - pos {
        bytes[pos + i]
    } else {
        0
    }
}

/// Reads the 8-byte field at `pos`, missing bytes counting as zero, and
/// says where reading goes on.
pub fn read_field(bytes: &[u8], pos: usize) -> (r: (u64, usize))
    requires
        pos <= bytes.len(),
    ensures
        r.0 == field_at(bytes@, pos as int),
        r.1 == after_field(bytes@, pos as int),
{
    let buf = [
        byte_or_zero(bytes, pos, 0),
        byte_or_zero(bytes, pos, 1),
        byte_or_zero(bytes, pos, 2),
        byte_or_zero(bytes, pos, 3),
        byte_or_zero(bytes, pos, 4),
        byte_or_zero(bytes, pos, 5),
        byte_or_zero(bytes, pos, 6),
        byte_or_zero(bytes, pos, 7),
    ];
    proof {
        assert(buf@ =~= padded_field(bytes@, pos as int));
    }
    let v = be_read_u64(buf);
    let next = if bytes.len() - pos >= 8 { pos + 8 } else { bytes.len() };
    (v, next)
}

/// A field written after any bytes reads back, whatever follows it: the
/// field at its position is the written number, and reading goes on right
/// after its 8 bytes.
pub proof fn law_field_roundtrip(pre: Seq<u8>, x: u64, rest: Seq<u8>)
    ensures
        field_at(pre + be_u64_bytes(x) + rest, pre.len() as int) == x,
        after_field(pre + be_u64_bytes(x) + rest, pre.len() as int) == pre.len() + 8,
{
    let bytes = pre + be_u64_bytes(x) + rest;
    assert(padded_field(bytes, pre.len() as int) =~= be_u64_bytes(x));
    lemma_u64_roundtrip(x);
}

/// Reads the word stored at `pos`.
fn read_word(bytes: &[u8], pos: usize) -> (r: u32)
    requires
        pos + 4 <= bytes.len(),
    ensures
        r == be_u32_value(bytes@.subrange(pos as int, pos + 4)),
{
    let buf = [bytes[pos], bytes[pos + 1], bytes[pos + 2], bytes[pos + 3]];
    proof {
        assert(buf@ =~= bytes@.subrange(pos as int, pos + 4));
    }
    be_read_u32(buf)
}

/// Puts `front` before the groups read so far, if reading succeeded.
pub open spec fn prepend_groups(front: Seq<Seq<u32>>, rest: Option<Seq<Seq<u32>>>) -> Option<Seq<Seq<u32>>> {
    match rest {
        Some(r) => Some(front + r),
        None => None,
    }
}

/// Reads stored index data: `header_count` header fields, then the bit
/// groups, also laid end to end. Fails exactly when a group's words are cut
/// off.
pub fn decode_index(bytes: &[u8], header_count: usize) -> (r: Result<(Vec<usize>, Vec<Vec<u32>>, Vec<u32>), DecodeError>)
    ensures
        match r {
            Ok((hs, gs, flat)) => {
                &&& hs@ == parse_header(bytes@, header_count as int)
                &&& parse_groups(bytes@, groups_start(bytes@, header_count as int)) == Some(group_views(gs@))
                &&& flat@ == groups_flat(gs@)
            },
            Err(_) => parse_groups(bytes@, groups_start(bytes@, header_count as int)) is None,
        },
{
    let len = bytes.len();
    let mut header: Vec<usize> = Vec::new();
    let mut pos: usize = 0;
    let mut i: usize = 0;
    while i < header_count
        invariant
            i <= header_count,
            len == bytes.len(),
            pos == (if 8 * i <= len { 8 * i } else { len as int }),
            header@ == parse_header(bytes@, header_count as int).take(i as int),
        decreases header_count - i,
    {
        let (v, next) = read_field(bytes, pos);
        proof {
            assert(padded_field(bytes@, pos as int) =~= padded_field(bytes@, 8 * i));
        }
        header.push(v as usize);
        proof {
            assert(header@ =~= parse_header(bytes@, header_count as int).take(i + 1));
        }
        pos = next;
        i += 1;
    }
    proof {
        assert(header@ =~= parse_header(bytes@, header_count as int));
    }
    let ghost start = pos as int;
    assert(start == groups_start(bytes@, header_count as int));
    let mut groups: Vec<Vec<u32>> = Vec::new();
    let mut flat: Vec<u32> = Vec::new();
    loop
        invariant
            len == bytes.len(),
            pos <= len,
            start == groups_start(bytes@, header_count as int),
            parse_groups(bytes@, start) == prepend_groups(group_views(groups@), parse_groups(bytes@, pos as int)),
            flat@ == groups_flat(groups@),
        ensures
            parse_groups(bytes@, start) == Some(group_views(groups@)),
            flat@ == groups_flat(groups@),
        decreases len - pos,
    {
        let (size, after) = read_field(bytes, pos);
        if size == 0 {
            proof {
                assert(group_views(groups@) + Seq::<Seq<u32>>::empty() =~= group_views(groups@));
            }
            break;
        }
        if size > ((len - after) / 4) as u64 {
            proof {
                if pos >= len {
                    lemma_zero_field(bytes@, pos as int);
                }
                let q = (len - after) / 4;
                assert(4 * size > len - after) by (nonlinear_arith)
                    requires
                        size > q,
                        q == (len - after) / 4,
                        len - after >= 0,
                ;
                assert(pos < len);
                assert(after_field(bytes@, pos as int) == after);
                assert(after + 4 * (size as int) > bytes@.len());
                assert(parse_groups(bytes@, pos as int) is None);
            }
            return Err(DecodeError::Truncated);
        }
        let count = size as usize;
        let mut group: Vec<u32> = Vec::new();
        let ghost flat_before = flat@;
        let mut j: usize = 0;
        while j < count
            invariant
                j <= count,
                len == bytes.len(),
                after + 4 * count <= len,
                group@ == words_at(bytes@, after as int, count as int).take(j as int),
                flat@ == flat_before + group@,
            decreases count - j,
        {
            let w = read_word(bytes, after + 4 * j);
            group.push(w);
            flat.push(w);
            proof {
                assert(group@ =~= words_at(bytes@, after as int, count as int).take(j + 1));
            }
            j += 1;
        }
        proof {
            assert(group@ =~= words_at(bytes@, after as int, count as int));
            let old_views = group_views(groups@);
            let rest = parse_groups(bytes@, after + 4 * count);
            assert(parse_groups(bytes@, pos as int) == prepend_groups(seq![group@], rest));
            let ghost old_groups = groups@;
            assert(old_groups.push(group).drop_last() =~= old_groups);
            assert(group_views(old_groups.push(group)) =~= old_views.push(group@));
            match rest {
                Some(r) => {
                    assert(old_views + (seq![group@] + r) =~= old_views.push(group@) + r);
                },
                None => {},
            }
        }
        groups.push(group);
        pos = after + 4 * count;
    }
    Ok((header, groups, flat))
}


/// The header takes 8 bytes per field.
proof fn lemma_header_bytes_len(hs: Seq<usize>)
    ensures
        header_bytes(hs).len() == 8 * hs.len(),
    decreases hs.len(),
{
    if hs.len() > 0 {
        lemma_header_bytes_len(hs.drop_first());
    }
}

/// Byte `j` of header field `i` sits at `8 * i + j`.
proof fn lemma_header_bytes_index(hs: Seq<usize>, i: int, j: int)
    requires
        0 <= i < hs.len(),
        0 <= j < 8,
    ensures
        header_bytes(hs)[8 * i + j] == be_u64_bytes(hs[i] as u64)[j],
    decreases hs.len(),
{
    lemma_header_bytes_len(hs.drop_first());
    if i > 0 {
        lemma_header_bytes_index(hs.drop_first(), i - 1, j);
    }
}

/// Byte `t` of word `j` sits at `4 * j + t` of the words' bytes.
proof fn lemma_words_bytes_index(ws: Seq<u32>, j: int, t: int)
    requires
        0 <= j < ws.len(),
        0 <= t < 4,
    ensures
        words_bytes(ws)[4 * j + t] == be_u32_bytes(ws[j])[t],
{
    lemma_fundamental_div_mod_converse(4 * j + t, 4, j, t);
}

/// Reading the records of non-empty groups, placed after any bytes, gives
/// the groups back.
proof fn lemma_parse_groups_bytes(pre: Seq<u8>, gs: Seq<Seq<u32>>)
    requires
        forall|i: int| 0 <= i < gs.len() ==> 0 < #[trigger] gs[i].len() <= u64::MAX,
    ensures
        parse_groups(pre + groups_bytes(gs), pre.len() as int) == Some(gs),
    decreases gs.len(),
{
    let bytes = pre + groups_bytes(gs);
    let pos = pre.len() as int;
    if gs.len() == 0 {
        assert(bytes =~= pre);
    } else {
        let g = gs[0];
        let n = g.len() as int;
        let rec = group_record(g);
        let rest = gs.drop_first();
        assert(bytes =~= (pre + rec) + groups_bytes(rest));
        assert(rec.len() == 8 + 4 * n);
        assert(padded_field(bytes, pos) =~= be_u64_bytes(n as u64));
        lemma_u64_roundtrip(n as u64);
        assert(field_at(bytes, pos) == n);
        assert(after_field(bytes, pos) == pos + 8);
        let start = pos + 8;
        assert forall|j: int| 0 <= j < n implies #[trigger] words_at(bytes, start, n)[j] == g[j] by {
            assert forall|t: int| 0 <= t < 4 implies #[trigger] bytes.subrange(start + 4 * j, start + 4 * j + 4)[t]
                == be_u32_bytes(g[j])[t] by {
                lemma_words_bytes_index(g, j, t);
                assert(bytes[start + 4 * j + t] == rec[8 + 4 * j + t]);
            }
            assert(bytes.subrange(start + 4 * j, start + 4 * j + 4) =~= be_u32_bytes(g[j]));
            lemma_u32_roundtrip(g[j]);
        }
        assert(words_at(bytes, start, n) =~= g);
        lemma_parse_groups_bytes(pre + rec, rest);
        assert((pre + rec).len() == start + 4 * n);
        assert(seq![g] + rest =~= gs);
    }
}

/// Reading stored index data gives back the header fields and the bit
/// groups it was written from, provided no group is empty (a zero word
/// count ends the list of groups).
pub proof fn law_index_roundtrip(hs: Seq<usize>, gs: Seq<Seq<u32>>)
    requires
        forall|i: int| 0 <= i < gs.len() ==> 0 < #[trigger] gs[i].len() <= u64::MAX,
    ensures
        parse_header(index_bytes(hs, gs), hs.len() as int) == hs,
        parse_groups(index_bytes(hs, gs), groups_start(index_bytes(hs, gs), hs.len() as int)) == Some(gs),
{
    let bytes = index_bytes(hs, gs);
    lemma_header_bytes_len(hs);
    assert forall|i: int| 0 <= i < hs.len() implies #[trigger] parse_header(bytes, hs.len() as int)[i] == hs[i] by {
        assert forall|j: int| 0 <= j < 8 implies #[trigger] padded_field(bytes, 8 * i)[j] == be_u64_bytes(hs[i] as u64)[j] by {
            lemma_header_bytes_index(hs, i, j);
            assert(bytes[8 * i + j] == header_bytes(hs)[8 * i + j]);
        }
        assert(padded_field(bytes, 8 * i) =~= be_u64_bytes(hs[i] as u64));
        lemma_u64_roundtrip(hs[i] as u64);
    }
    assert(parse_header(bytes, hs.len() as int) =~= hs);
    lemma_parse_groups_bytes(header_bytes(hs), gs);
}

} // verus!

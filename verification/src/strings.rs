//! Byte-level reasoning about UTF-8 text: character boundaries, slicing,
//! decoding and encoding of single characters.

use vstd::prelude::*;
use vstd::string::*;
use vstd::utf8::*;

verus! {

/// `i` is a position of `bytes` that does not fall inside the encoding of a character.
pub open spec fn is_boundary(bytes: Seq<u8>, i: int) -> bool {
    0 <= i <= bytes.len() && (i < bytes.len() ==> !is_continuation_byte(bytes[i]))
}

/// The number of bytes that the character starting at `i` takes, by its first byte.
pub open spec fn width_at(bytes: Seq<u8>, i: int) -> int {
    if bytes[i] <= 0x7f {
        1
    } else if bytes[i] <= 0xdf {
        2
    } else if bytes[i] <= 0xef {
        3
    } else {
        4
    }
}

/// The code point of the character starting at `i`.
pub open spec fn scalar_at(bytes: Seq<u8>, i: int) -> u32 {
    if bytes[i] <= 0x7f {
        codepoint_width_1(bytes[i])
    } else if bytes[i] <= 0xdf {
        codepoint_width_2(bytes[i], bytes[i + 1])
    } else if bytes[i] <= 0xef {
        codepoint_width_3(bytes[i], bytes[i + 1], bytes[i + 2])
    } else {
        codepoint_width_4(bytes[i], bytes[i + 1], bytes[i + 2], bytes[i + 3])
    }
}

/// In valid UTF-8 the positions that are no continuation bytes are exactly the
/// character boundaries.
pub proof fn lemma_boundary_is_char_boundary(bytes: Seq<u8>, i: int)
    requires
        valid_utf8(bytes),
    ensures
        is_boundary(bytes, i) <==> is_char_boundary(bytes, i),
{
    if 0 <= i < bytes.len() {
        is_char_boundary_iff_not_is_continuation_byte(bytes, i);
    } else if i == bytes.len() {
        is_char_boundary_start_end_of_seq(bytes);
    } else {
        assert(!is_char_boundary(bytes, i));
    }
}

proof fn lemma_width_2_bound(b0: u8, b1: u8)
    by (bit_vector)
    ensures
        (((b0 & 0x1F) as u32) << 6) | ((b1 & 0x3f) as u32) <= 0x7FF,
{
}

proof fn lemma_width_3_bound(b0: u8, b1: u8, b2: u8)
    by (bit_vector)
    ensures
        (((b0 & 0x0F) as u32) << 12) | (((b1 & 0x3f) as u32) << 6) | ((b2 & 0x3f) as u32)
            <= 0xFFFF,
{
}

proof fn lemma_width_1_bound(b0: u8)
    by (bit_vector)
    ensures
        ((b0 & 0x7F) as u32) <= 0x7F,
        b0 <= 0x7f ==> ((b0 & 0x7F) as u32) == b0 as u32,
{
}

/// A character that starts at a boundary of valid UTF-8 lies wholly in the
/// text, ends at a boundary, and decodes to a Unicode scalar value.
pub proof fn lemma_char_at(bytes: Seq<u8>, i: int)
    requires
        valid_utf8(bytes),
        is_boundary(bytes, i),
        i < bytes.len(),
    ensures
        i + width_at(bytes, i) <= bytes.len(),
        is_boundary(bytes, i + width_at(bytes, i)),
        is_scalar(scalar_at(bytes, i)),
        is_leading_byte_width_1(bytes[i]) || is_leading_byte_width_2(bytes[i])
            || is_leading_byte_width_3(bytes[i]) || is_leading_byte_width_4(bytes[i]),
        is_leading_byte_width_1(bytes[i]) ==> scalar_at(bytes, i) == bytes[i] as u32,
        !is_leading_byte_width_1(bytes[i]) ==> scalar_at(bytes, i) >= 0x80,
        forall|k: int| i < k < i + width_at(bytes, i) ==> is_continuation_byte(#[trigger] bytes[k]),
        valid_utf8(bytes.subrange(i, i + width_at(bytes, i))),
        bytes.subrange(i, i + width_at(bytes, i)) == encode_scalar(scalar_at(bytes, i)),
{
    lemma_boundary_is_char_boundary(bytes, i);
    valid_utf8_split(bytes, i);
    let suf = bytes.subrange(i, bytes.len() as int);
    assert(valid_first_scalar(suf));
    let w = length_of_first_scalar(suf);
    assert(suf[0] == bytes[i]);
    assert(w == width_at(bytes, i));
    if w >= 2 {
        assert(suf[1] == bytes[i + 1]);
    }
    if w >= 3 {
        assert(suf[2] == bytes[i + 2]);
    }
    if w >= 4 {
        assert(suf[3] == bytes[i + 3]);
    }
    assert(decode_first_scalar(suf) == scalar_at(bytes, i));
    let rest = pop_first_scalar(suf);
    assert(rest =~= bytes.subrange(i + w, bytes.len() as int));
    assert(valid_utf8(rest));
    if rest.len() > 0 {
        assert(valid_first_scalar(rest));
        assert(rest[0] == bytes[i + w]);
    }
    lemma_width_1_bound(bytes[i]);
    if w == 2 {
        lemma_width_2_bound(bytes[i], bytes[i + 1]);
    }
    if w == 3 {
        lemma_width_3_bound(bytes[i], bytes[i + 1], bytes[i + 2]);
    }
    decode_utf8_first_scalar(suf);
    let c = decode_first_scalar(suf);
    assert((c as char) as u32 == c);
    assert(take_first_scalar(suf) =~= bytes.subrange(i, i + w));
    assert(valid_utf8(bytes.subrange(i, i + w))) by {
        reveal_with_fuel(valid_utf8, 2);
        let one = bytes.subrange(i, i + w);
        assert(one[0] == bytes[i]);
        if w >= 2 {
            assert(one[1] == bytes[i + 1]);
        }
        if w >= 3 {
            assert(one[2] == bytes[i + 2]);
        }
        if w >= 4 {
            assert(one[3] == bytes[i + 3]);
        }
        assert(pop_first_scalar(one) =~= Seq::<u8>::empty());
    }
}

/// Decodes the character that starts at the boundary `pos`: its code point and
/// the number of bytes it takes.
pub(crate) fn decode_at(b: &[u8], pos: usize) -> (r: (u32, usize))
    requires
        valid_utf8(b@),
        is_boundary(b@, pos as int),
        pos < b@.len(),
    ensures
        r.0 == scalar_at(b@, pos as int),
        r.1 == width_at(b@, pos as int),
        pos + r.1 <= b@.len(),
        is_boundary(b@, pos + r.1),
{
    proof {
        lemma_char_at(b@, pos as int);
    }
    let b0 = b[pos];
    if b0 <= 0x7f {
        ((b0 & 0x7f) as u32, 1)
    } else if b0 <= 0xdf {
        let b1 = b[pos + 1];
        ((((b0 & 0x1f) as u32) << 6) | ((b1 & 0x3f) as u32), 2)
    } else if b0 <= 0xef {
        let b1 = b[pos + 1];
        let b2 = b[pos + 2];
        ((((b0 & 0x0f) as u32) << 12) | (((b1 & 0x3f) as u32) << 6) | ((b2 & 0x3f) as u32), 3)
    } else {
        let b1 = b[pos + 1];
        let b2 = b[pos + 2];
        let b3 = b[pos + 3];
        (
            (((b0 & 0x07) as u32) << 18) | (((b1 & 0x3f) as u32) << 12) | (((b2 & 0x3f) as u32)
                << 6) | ((b3 & 0x3f) as u32),
            4,
        )
    }
}

/// The part of `text` between two character boundaries.
pub(crate) fn slice_str<'a>(text: &'a str, start: usize, end: usize) -> (r: &'a str)
    requires
        start <= end,
        is_boundary(text.spec_bytes(), start as int),
        is_boundary(text.spec_bytes(), end as int),
    ensures
        r.spec_bytes() == text.spec_bytes().subrange(start as int, end as int),
{
    let ghost bytes = text.spec_bytes();
    proof {
        encode_utf8_valid_utf8(text@);
        lemma_boundary_is_char_boundary(bytes, end as int);
    }
    let (head, _) = text.split_at(end);
    proof {
        let hb = head.spec_bytes();
        encode_utf8_valid_utf8(head@);
        assert(hb =~= bytes.subrange(0, end as int));
        assert(is_boundary(hb, start as int));
        lemma_boundary_is_char_boundary(hb, start as int);
    }
    let (_, r) = head.split_at(start);
    proof {
        assert(r.spec_bytes() =~= bytes.subrange(start as int, end as int));
    }
    r
}

/// A single ASCII byte is valid UTF-8.
pub proof fn lemma_valid_ascii(c: u8)
    requires
        c < 0x80,
    ensures
        valid_utf8(seq![c]),
{
    reveal_with_fuel(valid_utf8, 2);
    let one = seq![c];
    assert(one[0] == c);
    assert(pop_first_scalar(one) =~= Seq::<u8>::empty());
}

/// Valid UTF-8 with an ASCII byte behind it is valid UTF-8.
pub proof fn lemma_valid_push_ascii(buf: Seq<u8>, c: u8)
    requires
        valid_utf8(buf),
        c < 0x80,
    ensures
        valid_utf8(buf.push(c)),
{
    lemma_valid_ascii(c);
    valid_utf8_concat(buf, seq![c]);
    assert(buf + seq![c] =~= buf.push(c));
}

/// Valid UTF-8 that ends in an ASCII byte is valid UTF-8 without that byte.
pub proof fn lemma_valid_drop_last_ascii(buf: Seq<u8>)
    requires
        valid_utf8(buf),
        buf.len() > 0,
        buf.last() < 0x80,
    ensures
        valid_utf8(buf.drop_last()),
{
    let i = buf.len() - 1;
    assert(is_boundary(buf, i));
    lemma_boundary_is_char_boundary(buf, i);
    valid_utf8_split(buf, i);
    assert(buf.subrange(0, i) =~= buf.drop_last());
}

/// The part of valid UTF-8 between two character boundaries is valid UTF-8.
pub proof fn lemma_valid_subrange(b: Seq<u8>, start: int, end: int)
    requires
        valid_utf8(b),
        start <= end,
        is_boundary(b, start),
        is_boundary(b, end),
    ensures
        valid_utf8(b.subrange(start, end)),
{
    lemma_boundary_is_char_boundary(b, end);
    valid_utf8_split(b, end);
    let head = b.subrange(0, end);
    assert(is_boundary(head, start));
    lemma_boundary_is_char_boundary(head, start);
    valid_utf8_split(head, start);
    assert(head.subrange(start, head.len() as int) =~= b.subrange(start, end));
}

/// The encoding of a character is valid UTF-8.
pub proof fn lemma_valid_encoding(c: char)
    ensures
        valid_utf8(encode_scalar(c as u32)),
        1 <= encode_scalar(c as u32).len() <= 4,
{
    let cs = seq![c];
    assert(cs.drop_first() =~= Seq::<char>::empty());
    assert(encode_utf8(cs.drop_first()) =~= Seq::<u8>::empty());
    assert(encode_utf8(cs) =~= encode_scalar(c as u32)) by {
        assert(cs[0] == c);
        assert(encode_scalar(c as u32) + Seq::<u8>::empty() =~= encode_scalar(c as u32));
    }
    encode_utf8_valid_utf8(cs);
}

/// `String::from_utf8` turns a vector of bytes into a string with those
/// bytes if the bytes are valid UTF-8; otherwise it gives an error.
#[verifier::external_body]
fn string_from_utf8(bytes: Vec<u8>) -> (r: Option<String>)
    ensures
        r is Some <==> valid_utf8(bytes@),
        r matches Some(s) ==> encode_utf8(s@) == bytes@,
{
    String::from_utf8(bytes).ok()
}

/// The string with the given bytes, which are valid UTF-8.
pub(crate) fn owned_string(bytes: Vec<u8>) -> (r: String)
    requires
        valid_utf8(bytes@),
    ensures
        encode_utf8(r@) == bytes@,
{
    match string_from_utf8(bytes) {
        Some(s) => s,
        None => vstd::pervasive::unreached(),
    }
}

/// Appends the bytes of `more` to `buf`.
pub(crate) fn append_bytes(buf: &mut Vec<u8>, more: &[u8])
    ensures
        final(buf)@ == old(buf)@ + more@,
{
    let mut i: usize = 0;
    while i < more.len()
        invariant
            i <= more@.len(),
            buf@ == old(buf)@ + more@.subrange(0, i as int),
        decreases more@.len() - i,
    {
        buf.push(more[i]);
        proof {
            assert(more@.subrange(0, i + 1) =~= more@.subrange(0, i as int).push(more@[i as int]));
            assert(buf@ =~= old(buf)@ + more@.subrange(0, i + 1));
        }
        i += 1;
    }
    proof {
        assert(more@.subrange(0, more@.len() as int) =~= more@);
    }
}

/// Appends the UTF-8 encoding of `c` to `buf`.
pub(crate) fn append_char(buf: &mut Vec<u8>, c: char)
    ensures
        final(buf)@ == old(buf)@ + encode_scalar(c as u32),
{
    let v = c as u32;
    proof {
        char_is_scalar(c);
    }
    if v <= 0x7f {
        buf.push((v & 0x7f) as u8);
    } else if v <= 0x7ff {
        buf.push(0xC0 | ((v >> 6) & 0x1F) as u8);
        buf.push(0x80 | (v & 0x3F) as u8);
    } else if v <= 0xffff {
        buf.push(0xE0 | ((v >> 12) & 0x0F) as u8);
        buf.push(0x80 | ((v >> 6) & 0x3F) as u8);
        buf.push(0x80 | (v & 0x3F) as u8);
    } else {
        buf.push(0xF0 | ((v >> 18) & 0x7) as u8);
        buf.push(0x80 | ((v >> 12) & 0x3F) as u8);
        buf.push(0x80 | ((v >> 6) & 0x3F) as u8);
        buf.push(0x80 | (v & 0x3F) as u8);
    }
    proof {
        assert(buf@ =~= old(buf)@ + encode_scalar(v));
    }
}

/// The start of valid UTF-8 is a character boundary.
pub proof fn lemma_start_boundary(b: Seq<u8>)
    requires
        valid_utf8(b),
    ensures
        is_boundary(b, 0),
        is_boundary(b, b.len() as int),
{
    lemma_boundary_is_char_boundary(b, 0);
}

} // verus!

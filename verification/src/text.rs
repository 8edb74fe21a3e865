//! Byte-level views of UTF-8 text: the character that starts at a byte
//! offset, its width, and the facts about character boundaries that the
//! lexer and the unescaper rely on.

use vstd::prelude::*;
use vstd::string::StringSliceAdditionalSpecFns;
use vstd::utf8::*;

verus! {

broadcast use vstd::utf8::group_utf8_lib, vstd::string::group_string_axioms;

/// The bytes from offset `pos` to the end.
pub open spec fn tail(bytes: Seq<u8>, pos: int) -> Seq<u8> {
    bytes.subrange(pos, bytes.len() as int)
}

/// The character whose encoding starts at byte offset `pos`.
pub open spec fn char_at(bytes: Seq<u8>, pos: int) -> char {
    decode_first_scalar(tail(bytes, pos)) as char
}

/// The number of bytes of the encoding that starts at byte offset `pos`.
pub open spec fn width_at(bytes: Seq<u8>, pos: int) -> int {
    length_of_first_scalar(tail(bytes, pos))
}

/// The number of bytes that the UTF-8 encoding of `c` takes.
pub open spec fn utf8_width(c: char) -> int {
    if (c as u32) < 0x80 {
        1
    } else if (c as u32) < 0x800 {
        2
    } else if (c as u32) < 0x10000 {
        3
    } else {
        4
    }
}

/// Whether `b` encodes an ASCII character.
pub open spec fn is_ascii_byte(b: u8) -> bool {
    b < 0x80
}

/// The encoding of `c` takes `utf8_width(c)` bytes.
pub proof fn lemma_encode_scalar_len(c: char)
    ensures
        encode_scalar(c as u32).len() == utf8_width(c),
{
    char_is_scalar(c);
}

/// In valid UTF-8, a character starts at every boundary before the end, the
/// next boundary follows its encoding, and the bytes from a boundary on are
/// valid UTF-8 again.
pub proof fn lemma_next_boundary(bytes: Seq<u8>, pos: int)
    requires
        valid_utf8(bytes),
        is_char_boundary(bytes, pos),
        0 <= pos < bytes.len(),
    ensures
        valid_utf8(tail(bytes, pos)),
        valid_first_scalar(tail(bytes, pos)),
        pos + width_at(bytes, pos) <= bytes.len(),
        is_char_boundary(bytes, pos + width_at(bytes, pos)),
        valid_utf8(tail(bytes, pos + width_at(bytes, pos))),
{
    let t = tail(bytes, pos);
    valid_utf8_split(bytes, pos);
    assert(valid_utf8(t));
    assert(t.len() > 0);
    assert(valid_first_scalar(t));
    let w = width_at(bytes, pos);
    let rest = pop_first_scalar(t);
    assert(valid_utf8(rest));
    assert(rest =~= tail(bytes, pos + w));
    if pos + w == bytes.len() {
        is_char_boundary_start_end_of_seq(bytes);
    } else {
        assert(rest.len() > 0);
        assert(valid_first_scalar(rest));
        assert(rest[0] == bytes[pos + w]);
        is_char_boundary_iff_not_is_continuation_byte(bytes, pos + w);
    }
}

/// In valid UTF-8 an ASCII byte stands on a boundary, and so does the byte
/// after it.
pub proof fn lemma_ascii_boundary(bytes: Seq<u8>, pos: int)
    requires
        valid_utf8(bytes),
        0 <= pos < bytes.len(),
        is_ascii_byte(bytes[pos]),
    ensures
        is_char_boundary(bytes, pos),
        is_char_boundary(bytes, pos + 1),
        width_at(bytes, pos) == 1,
        char_at(bytes, pos) == bytes[pos] as char,
{
    is_char_boundary_iff_not_is_continuation_byte(bytes, pos);
    lemma_next_boundary(bytes, pos);
    let b = bytes[pos];
    assert(tail(bytes, pos)[0] == b);
    assert((b & 0x7f) == b) by (bit_vector)
        requires
            b < 0x80,
    ;
}

/// The character at a boundary and the width of its encoding.
pub fn decode_at(s: &str, pos: usize) -> (r: (char, usize))
    requires
        pos < s.spec_bytes().len(),
        is_char_boundary(s.spec_bytes(), pos as int),
    ensures
        r.0 == char_at(s.spec_bytes(), pos as int),
        r.1 == width_at(s.spec_bytes(), pos as int),
        r.1 == utf8_width(r.0),
        pos + r.1 <= s.spec_bytes().len(),
        is_char_boundary(s.spec_bytes(), pos + r.1),
{
    proof {
        lemma_next_boundary(s.spec_bytes(), pos as int);
    }
    let (_, rest) = s.split_at(pos);
    assert(rest.spec_bytes() =~= tail(s.spec_bytes(), pos as int));
    assert(rest@.len() > 0) by {
        if rest@.len() == 0 {
            assert(encode_utf8(rest@) =~= Seq::<u8>::empty());
        }
    }
    let mut chars = rest.chars();
    proof {
        vstd::string::axiom_spec_iter(rest);
    }
    let next = chars.next();
    match next {
        Some(c) => {
            assert(c == rest@[0]);
            proof {
                encode_utf8_first_scalar(rest@);
                lemma_encode_scalar_len(c);
                let t = tail(s.spec_bytes(), pos as int);
                assert(t == encode_utf8(rest@));
                assert(decode_first_scalar(t) == c as u32);
                char_u32_cast(c, c as u32);
                assert(char_at(s.spec_bytes(), pos as int) == ((c as u32) as char));
            }
            let v = c as u32;
            let w: usize = if v < 0x80 {
                1
            } else if v < 0x800 {
                2
            } else if v < 0x10000 {
                3
            } else {
                4
            };
            (c, w)
        },
        None => {
            assert(false);
            ('\0', 1)
        },
    }
}

/// The substring between two boundaries.
pub fn slice<'a>(s: &'a str, start: usize, end: usize) -> (r: &'a str)
    requires
        start <= end <= s.spec_bytes().len(),
        is_char_boundary(s.spec_bytes(), start as int),
        is_char_boundary(s.spec_bytes(), end as int),
    ensures
        r.spec_bytes() == s.spec_bytes().subrange(start as int, end as int),
{
    let (head, _) = s.split_at(end);
    assert(head.spec_bytes() =~= s.spec_bytes().subrange(0, end as int));
    proof {
        let b = s.spec_bytes();
        let h = head.spec_bytes();
        if start < end {
            is_char_boundary_iff_not_is_continuation_byte(b, start as int);
            is_char_boundary_iff_not_is_continuation_byte(h, start as int);
            assert(h[start as int] == b[start as int]);
        } else {
            is_char_boundary_start_end_of_seq(h);
        }
    }
    let (_, r) = head.split_at(start);
    assert(r.spec_bytes() =~= s.spec_bytes().subrange(start as int, end as int));
    r
}

/// The width that a leading byte announces for its character.
pub open spec fn lead_width(b: u8) -> int {
    if is_leading_byte_width_1(b) {
        1
    } else if is_leading_byte_width_2(b) {
        2
    } else if is_leading_byte_width_3(b) {
        3
    } else {
        4
    }
}

/// The width of the encoding at `pos` is the one its first byte announces.
pub proof fn lemma_width_is_lead_width(bytes: Seq<u8>, pos: int)
    requires
        0 <= pos < bytes.len(),
    ensures
        width_at(bytes, pos) == lead_width(bytes[pos]),
{
    assert(tail(bytes, pos)[0] == bytes[pos]);
}

/// `lead_width` on a byte.
pub fn lead_width_of(b: u8) -> (w: usize)
    ensures
        w == lead_width(b),
{
    if b <= 0x7f {
        1
    } else if 0xc0 <= b && b <= 0xdf {
        2
    } else if 0xe0 <= b && b <= 0xef {
        3
    } else {
        4
    }
}

/// The bytes between two boundaries of valid UTF-8 are valid UTF-8.
pub proof fn lemma_valid_segment(bytes: Seq<u8>, a: int, b: int)
    requires
        valid_utf8(bytes),
        0 <= a <= b <= bytes.len(),
        is_char_boundary(bytes, a),
        is_char_boundary(bytes, b),
    ensures
        valid_utf8(bytes.subrange(a, b)),
{
    if a == b {
        assert(bytes.subrange(a, b) =~= Seq::<u8>::empty());
    } else {
        valid_utf8_split(bytes, b);
        let prefix = bytes.subrange(0, b);
        assert(prefix[a] == bytes[a]);
        is_char_boundary_iff_not_is_continuation_byte(bytes, a);
        is_char_boundary_iff_not_is_continuation_byte(prefix, a);
        valid_utf8_split(prefix, a);
        assert(prefix.subrange(a, prefix.len() as int) =~= bytes.subrange(a, b));
    }
}

/// In valid UTF-8 a boundary is followed by a character that fits.
pub proof fn lemma_boundary_width_fits(bytes: Seq<u8>, pos: int)
    requires
        valid_utf8(bytes),
        0 <= pos < bytes.len(),
        is_char_boundary(bytes, pos),
    ensures
        pos + lead_width(bytes[pos]) <= bytes.len(),
{
    lemma_next_boundary(bytes, pos);
    lemma_width_is_lead_width(bytes, pos);
}

/// Whether two texts are the same, byte for byte.
pub fn same_text(a: &str, b: &str) -> (r: bool)
    ensures
        r == (a.spec_bytes() == b.spec_bytes()),
{
    let x = a.as_bytes();
    let y = b.as_bytes();
    if x.len() != y.len() {
        return false;
    }
    let mut i: usize = 0;
    while i < x.len()
        invariant
            x@ == a.spec_bytes(),
            y@ == b.spec_bytes(),
            x@.len() == y@.len(),
            i <= x@.len(),
            forall|j: int| 0 <= j < i ==> x@[j] == y@[j],
        decreases x@.len() - i,
    {
        if x[i] != y[i] {
            return false;
        }
        i = i + 1;
    }
    assert(x@ =~= y@);
    true
}

/// A boundary of a segment between two boundaries is a boundary of the
/// whole text.
pub proof fn lemma_segment_boundary(bytes: Seq<u8>, a: int, b: int, x: int)
    requires
        valid_utf8(bytes),
        0 <= a <= b <= bytes.len(),
        is_char_boundary(bytes, a),
        is_char_boundary(bytes, b),
        0 <= x <= b - a,
        is_char_boundary(bytes.subrange(a, b), x),
    ensures
        is_char_boundary(bytes, a + x),
{
    if 0 < x < b - a {
        let segment = bytes.subrange(a, b);
        lemma_valid_segment(bytes, a, b);
        is_char_boundary_iff_not_is_continuation_byte(segment, x);
        is_char_boundary_iff_not_is_continuation_byte(bytes, a + x);
        assert(segment[x] == bytes[a + x]);
    }
}

} // verus!

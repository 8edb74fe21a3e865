//! Lox string values: borrowed from the source where a literal needs no
//! unescaping, shared and reference-counted otherwise.

use crate::range::Range;
use crate::text::{
    is_ascii_byte, lead_width, lead_width_of, lemma_ascii_boundary, lemma_boundary_width_fits,
    lemma_next_boundary, lemma_valid_segment, lemma_width_is_lead_width,
};
use core::cmp::Ordering;
use std::rc::Rc;
use vstd::prelude::*;
use vstd::std_specs::cmp::PartialOrdSpecImpl;
use vstd::string::StringSliceAdditionalSpecFns;
use vstd::utf8::*;

verus! {

broadcast use vstd::utf8::group_utf8_lib;

/// A string value of the language. Its view is the UTF-8 encoding of its text.
#[derive(Debug, Clone)]
pub struct LoxString<'a> {
    repr: Repr<'a>,
}

#[derive(Debug, Clone)]
enum Repr<'a> {
    Borrowed(&'a str),
    Shared(Rc<String>),
}

impl<'a> View for LoxString<'a> {
    type V = Seq<u8>;

    closed spec fn view(&self) -> Seq<u8> {
        match self.repr {
            Repr::Borrowed(s) => s.spec_bytes(),
            Repr::Shared(s) => encode_utf8((*s)@),
        }
    }
}

/// Makes a string that owns the text that `bytes` encodes; `None` where the
/// bytes are not UTF-8.
///
/// Calls `String::from_utf8`, which, as its documentation says, fails exactly
/// on bytes that are not valid UTF-8 and otherwise keeps the bytes as the
/// string's contents.
#[verifier::external_body]
fn string_from_utf8(bytes: Vec<u8>) -> (r: Option<String>)
    ensures
        r is Some <==> valid_utf8(bytes@),
        r matches Some(s) ==> s@ == decode_utf8(bytes@),
{
    String::from_utf8(bytes).ok()
}

/// Whether `b` is an ASCII hexadecimal digit.
pub open spec fn is_hex(b: u8) -> bool {
    ('0' as u8 <= b <= '9' as u8) || ('a' as u8 <= b <= 'f' as u8) || ('A' as u8 <= b <= 'F' as u8)
}

/// The value of a hexadecimal digit.
pub open spec fn hex_value(b: u8) -> int {
    if '0' as u8 <= b <= '9' as u8 {
        b - '0' as u8
    } else if 'a' as u8 <= b <= 'f' as u8 {
        b - 'a' as u8 + 10
    } else {
        b - 'A' as u8 + 10
    }
}

/// The byte that a two-character escape `\0`, `\t`, `\n`, `\r`, `\"` or `\\`
/// stands for, by the character after the backslash.
pub open spec fn simple_escape(b: u8) -> Option<u8> {
    if b == '0' as u8 {
        Some(0u8)
    } else if b == 't' as u8 {
        Some(9u8)
    } else if b == 'n' as u8 {
        Some(10u8)
    } else if b == 'r' as u8 {
        Some(13u8)
    } else if b == '"' as u8 {
        Some('"' as u8)
    } else if b == '\\' as u8 {
        Some('\\' as u8)
    } else {
        None
    }
}

/// The span `start..end` as a `Range`.
pub open spec fn span(start: int, end: int) -> Range {
    Range { start: start as usize, end: end as usize }
}

/// The error span of an escape at `c` that goes wrong at the character that
/// starts `k` bytes into it: from the backslash to the end of that character.
pub open spec fn bad_char(raw: Seq<u8>, c: int, k: int) -> Range {
    span(c, c + k + lead_width(raw[c + k]))
}

/// The first backslash at or after `p`.
pub open spec fn find_backslash(raw: Seq<u8>, p: int) -> Option<int>
    decreases raw.len() - p,
{
    if p < 0 || p >= raw.len() {
        None
    } else if raw[p] == '\\' as u8 {
        Some(p)
    } else {
        find_backslash(raw, p + 1)
    }
}

/// The rest of a `\u{...}` escape at `c` whose digits so far, up to byte
/// `k` of the escape, make `code`: more digits, then `}` closing a Unicode
/// scalar value; at most six digits in all.
pub open spec fn braced_escape(raw: Seq<u8>, c: int, k: int, code: int) -> Result<
    (Seq<u8>, int),
    Range,
>
    decreases 10 - k,
{
    if c + k >= raw.len() {
        Err(span(c, raw.len() as int))
    } else if k >= 10 {
        Err(bad_char(raw, c, k))
    } else if is_hex(raw[c + k]) {
        braced_escape(raw, c, k + 1, code * 16 + hex_value(raw[c + k]))
    } else if raw[c + k] == '}' as u8 {
        if 0 <= code <= u32::MAX && is_scalar(code as u32) {
            Ok((encode_scalar(code as u32), k + 1))
        } else {
            Err(span(c, c + k + 1))
        }
    } else {
        Err(bad_char(raw, c, k))
    }
}

/// The escape that starts with the backslash at `c`: the bytes it stands for
/// and its length, or the span of the error.
pub open spec fn escape_at(raw: Seq<u8>, c: int) -> Result<(Seq<u8>, int), Range> {
    if c + 1 >= raw.len() {
        Err(span(c, raw.len() as int))
    } else if simple_escape(raw[c + 1]) is Some {
        Ok((seq![simple_escape(raw[c + 1])->0], 2))
    } else if raw[c + 1] == 'x' as u8 {
        if c + 4 > raw.len() {
            Err(span(c, raw.len() as int))
        } else if !is_hex(raw[c + 2]) {
            Err(bad_char(raw, c, 2))
        } else if !is_hex(raw[c + 3]) {
            Err(bad_char(raw, c, 3))
        } else if hex_value(raw[c + 2]) * 16 + hex_value(raw[c + 3]) > 0x7f {
            Err(span(c, c + 4))
        } else {
            Ok((seq![(hex_value(raw[c + 2]) * 16 + hex_value(raw[c + 3])) as u8], 4))
        }
    } else if raw[c + 1] == 'u' as u8 {
        if c + 4 > raw.len() {
            Err(span(c, raw.len() as int))
        } else if raw[c + 2] != '{' as u8 {
            Err(bad_char(raw, c, 2))
        } else if !is_hex(raw[c + 3]) {
            Err(bad_char(raw, c, 3))
        } else {
            braced_escape(raw, c, 4, hex_value(raw[c + 3]))
        }
    } else {
        Err(bad_char(raw, c, 1))
    }
}

/// Every escape is at least two bytes long.
pub proof fn lemma_escape_len(raw: Seq<u8>, c: int)
    ensures
        escape_at(raw, c) matches Ok((_, n)) ==> n >= 2,
{
    if c + 1 < raw.len() && simple_escape(raw[c + 1]) is None && raw[c + 1] != 'x' as u8
        && raw[c + 1] == 'u' as u8 && c + 4 <= raw.len() && raw[c + 2] == '{' as u8 && is_hex(
        raw[c + 3],
    ) {
        lemma_braced_len(raw, c, 4, hex_value(raw[c + 3]));
    }
}

proof fn lemma_braced_len(raw: Seq<u8>, c: int, k: int, code: int)
    ensures
        braced_escape(raw, c, k, code) matches Ok((_, n)) ==> n >= k + 1,
    decreases 10 - k,
{
    if c + k < raw.len() && k < 10 && is_hex(raw[c + k]) {
        lemma_braced_len(raw, c, k + 1, code * 16 + hex_value(raw[c + k]));
    }
}

/// The first backslash found lies at or after where the search starts.
pub proof fn lemma_find_backslash(raw: Seq<u8>, p: int)
    requires
        0 <= p,
    ensures
        find_backslash(raw, p) matches Some(d) ==> p <= d < raw.len() && raw[d] == '\\' as u8,
        find_backslash(raw, p) is None ==> forall|i: int|
            p <= i < raw.len() ==> raw[i] != '\\' as u8,
    decreases raw.len() - p,
{
    if 0 <= p < raw.len() && raw[p] != '\\' as u8 {
        lemma_find_backslash(raw, p + 1);
    }
}

/// Prefixes `out` to a successful result.
pub open spec fn prepend(out: Seq<u8>, r: Result<Seq<u8>, Range>) -> Result<Seq<u8>, Range> {
    match r {
        Ok(rest) => Ok(out + rest),
        Err(e) => Err(e),
    }
}

/// The unescaped text from the backslash at `c` on.
pub open spec fn unescape_from(raw: Seq<u8>, c: int) -> Result<Seq<u8>, Range>
    decreases raw.len() - c,
{
    match escape_at(raw, c) {
        Err(e) => Err(e),
        Ok((bytes, n)) => match find_backslash(raw, c + n) {
            None => Ok(bytes + raw.subrange(c + n, raw.len() as int)),
            Some(d) => {
                proof {
                    lemma_escape_len(raw, c);
                    lemma_find_backslash(raw, c + n);
                }
                prepend(bytes + raw.subrange(c + n, d), unescape_from(raw, d))
            },
        },
    }
}

/// The text that a string literal's body `raw` stands for, with every escape
/// replaced, or the span within `raw` of the first bad escape.
pub open spec fn unescape_bytes(raw: Seq<u8>) -> Result<Seq<u8>, Range> {
    match find_backslash(raw, 0) {
        None => Ok(raw),
        Some(c) => prepend(raw.subrange(0, c), unescape_from(raw, c)),
    }
}

/// Text with no backslash stands for itself.
pub proof fn lemma_unescape_plain(raw: Seq<u8>)
    requires
        forall|i: int| 0 <= i < raw.len() ==> raw[i] != '\\' as u8,
    ensures
        unescape_bytes(raw) == Ok::<Seq<u8>, Range>(raw),
        find_backslash(raw, 0) is None,
{
    lemma_find_backslash(raw, 0);
}

/// A span of `raw` that starts and ends on character boundaries.
pub open spec fn on_boundaries(raw: Seq<u8>, r: Range) -> bool {
    &&& r.start <= r.end <= raw.len()
    &&& is_char_boundary(raw, r.start as int)
    &&& is_char_boundary(raw, r.end as int)
}

proof fn lemma_bad_char_boundaries(raw: Seq<u8>, c: int, k: int)
    requires
        valid_utf8(raw),
        raw.len() <= usize::MAX,
        0 <= c,
        1 <= k,
        c + k < raw.len(),
        forall|j: int| c <= j < c + k ==> is_ascii_byte(#[trigger] raw[j]),
    ensures
        on_boundaries(raw, bad_char(raw, c, k)),
{
    assert(is_ascii_byte(raw[c]));
    assert(is_ascii_byte(raw[c + k - 1]));
    lemma_ascii_boundary(raw, c);
    lemma_ascii_boundary(raw, c + k - 1);
    lemma_next_boundary(raw, c + k);
    lemma_width_is_lead_width(raw, c + k);
}

proof fn lemma_braced_boundaries(raw: Seq<u8>, c: int, k: int, code: int)
    requires
        valid_utf8(raw),
        raw.len() <= usize::MAX,
        0 <= c,
        4 <= k <= 10,
        c + k <= raw.len(),
        forall|j: int| c <= j < c + k ==> is_ascii_byte(#[trigger] raw[j]),
    ensures
        braced_escape(raw, c, k, code) matches Err(e) ==> on_boundaries(raw, e),
    decreases 10 - k,
{
    assert(is_ascii_byte(raw[c]));
    lemma_ascii_boundary(raw, c);
    is_char_boundary_start_end_of_seq(raw);
    if c + k >= raw.len() {
    } else if k >= 10 {
        lemma_bad_char_boundaries(raw, c, k);
    } else if is_hex(raw[c + k]) {
        assert forall|j: int| c <= j < c + k + 1 implies is_ascii_byte(#[trigger] raw[j]) by {
            if j == c + k {
                assert(is_hex(raw[c + k]));
            }
        }
        lemma_braced_boundaries(raw, c, k + 1, code * 16 + hex_value(raw[c + k]));
    } else if raw[c + k] == '}' as u8 {
        lemma_ascii_boundary(raw, c + k);
    } else {
        lemma_bad_char_boundaries(raw, c, k);
    }
}

proof fn lemma_escape_boundaries(raw: Seq<u8>, c: int)
    requires
        valid_utf8(raw),
        raw.len() <= usize::MAX,
        0 <= c < raw.len(),
        raw[c] == '\\' as u8,
    ensures
        escape_at(raw, c) matches Err(e) ==> on_boundaries(raw, e),
{
    lemma_ascii_boundary(raw, c);
    is_char_boundary_start_end_of_seq(raw);
    if c + 1 >= raw.len() {
    } else if simple_escape(raw[c + 1]) is Some {
    } else if raw[c + 1] == 'x' as u8 {
        if c + 4 > raw.len() {
        } else if !is_hex(raw[c + 2]) {
            lemma_bad_char_boundaries(raw, c, 2);
        } else if !is_hex(raw[c + 3]) {
            lemma_bad_char_boundaries(raw, c, 3);
        } else {
            lemma_ascii_boundary(raw, c + 3);
        }
    } else if raw[c + 1] == 'u' as u8 {
        if c + 4 > raw.len() {
        } else if raw[c + 2] != '{' as u8 {
            lemma_bad_char_boundaries(raw, c, 2);
        } else if !is_hex(raw[c + 3]) {
            lemma_bad_char_boundaries(raw, c, 3);
        } else {
            lemma_braced_boundaries(raw, c, 4, hex_value(raw[c + 3]));
        }
    } else {
        lemma_bad_char_boundaries(raw, c, 1);
    }
}

proof fn lemma_unescape_from_boundaries(raw: Seq<u8>, c: int)
    requires
        valid_utf8(raw),
        raw.len() <= usize::MAX,
        0 <= c < raw.len(),
        raw[c] == '\\' as u8,
    ensures
        unescape_from(raw, c) matches Err(e) ==> on_boundaries(raw, e),
    decreases raw.len() - c,
{
    lemma_escape_boundaries(raw, c);
    match escape_at(raw, c) {
        Err(_) => {},
        Ok((_, n)) => {
            lemma_escape_len(raw, c);
            lemma_find_backslash(raw, c + n);
            match find_backslash(raw, c + n) {
                None => {},
                Some(d) => {
                    lemma_unescape_from_boundaries(raw, d);
                },
            }
        },
    }
}

/// A bad escape is reported by a span of the text on character boundaries.
pub proof fn lemma_unescape_error_boundaries(raw: Seq<u8>)
    requires
        valid_utf8(raw),
        raw.len() <= usize::MAX,
    ensures
        unescape_bytes(raw) matches Err(e) ==> on_boundaries(raw, e),
{
    lemma_find_backslash(raw, 0);
    match find_backslash(raw, 0) {
        None => {},
        Some(c) => {
            lemma_unescape_from_boundaries(raw, c);
        },
    }
}

/// An escape's outcome, with the bytes it stands for seen as a sequence.
pub open spec fn escape_view(r: Result<(Vec<u8>, usize), Range>) -> Result<(Seq<u8>, int), Range> {
    match r {
        Ok((bytes, n)) => Ok((bytes@, n as int)),
        Err(e) => Err(e),
    }
}

/// The UTF-8 encoding of a Unicode scalar value is valid UTF-8.
proof fn lemma_encode_scalar_valid(v: u32)
    requires
        is_scalar(v),
    ensures
        valid_utf8(encode_scalar(v)),
{
    let c = v as char;
    assert(c as u32 == v);
    encode_utf8_valid_utf8(seq![c]);
    assert(seq![c].drop_first() =~= Seq::<char>::empty());
    assert(encode_utf8(Seq::<char>::empty()) =~= Seq::<u8>::empty());
    assert(seq![c][0] == c);
    assert(encode_utf8(seq![c]) == encode_scalar(c as u32) + encode_utf8(seq![c].drop_first()));
    assert(encode_utf8(seq![c]) =~= encode_scalar(v));
}

/// A one-byte ASCII sequence is valid UTF-8.
proof fn lemma_ascii_valid(b: u8)
    requires
        b < 0x80,
    ensures
        valid_utf8(seq![b]),
{
    let c = b as char;
    assert(c as u32 == b as u32);
    encode_utf8_valid_utf8(seq![c]);
    assert((b as u32 & 0x7f) as u8 == b) by (bit_vector)
        requires
            b < 0x80,
    ;
    assert(seq![c].drop_first() =~= Seq::<char>::empty());
    assert(encode_utf8(Seq::<char>::empty()) =~= Seq::<u8>::empty());
    assert(seq![c][0] == c);
    assert(encode_utf8(seq![c]) == encode_scalar(c as u32) + encode_utf8(seq![c].drop_first()));
    assert(encode_utf8(seq![c]) =~= seq![b]);
}

/// `is_hex` on a byte.
fn hex(b: u8) -> (r: bool)
    ensures
        r == is_hex(b),
{
    ('0' as u8 <= b && b <= '9' as u8) || ('a' as u8 <= b && b <= 'f' as u8) || ('A' as u8 <= b
        && b <= 'F' as u8)
}

/// `hex_value` of a hexadecimal digit.
fn hex_digit(b: u8) -> (r: u8)
    requires
        is_hex(b),
    ensures
        r == hex_value(b),
        r < 16,
{
    if '0' as u8 <= b && b <= '9' as u8 {
        b - '0' as u8
    } else if 'a' as u8 <= b && b <= 'f' as u8 {
        b - 'a' as u8 + 10
    } else {
        b - 'A' as u8 + 10
    }
}

/// `simple_escape` on a byte.
fn simple(b: u8) -> (r: Option<u8>)
    ensures
        r == simple_escape(b),
{
    if b == '0' as u8 {
        Some(0u8)
    } else if b == 't' as u8 {
        Some(9u8)
    } else if b == 'n' as u8 {
        Some(10u8)
    } else if b == 'r' as u8 {
        Some(13u8)
    } else if b == '"' as u8 {
        Some('"' as u8)
    } else if b == '\\' as u8 {
        Some('\\' as u8)
    } else {
        None
    }
}

/// The UTF-8 encoding of a Unicode scalar value.
fn encode(v: u32) -> (r: Vec<u8>)
    requires
        is_scalar(v),
    ensures
        r@ == encode_scalar(v),
{
    let mut r: Vec<u8> = Vec::new();
    if v <= 0x7f {
        r.push((v & 0x7F) as u8);
    } else if v <= 0x7ff {
        r.push(0xC0 | ((v >> 6) & 0x1F) as u8);
        r.push(0x80 | (v & 0x3F) as u8);
    } else if v <= 0xffff {
        r.push(0xE0 | ((v >> 12) & 0x0F) as u8);
        r.push(0x80 | ((v >> 6) & 0x3F) as u8);
        r.push(0x80 | (v & 0x3F) as u8);
    } else {
        r.push(0xF0 | ((v >> 18) & 0x7) as u8);
        r.push(0x80 | ((v >> 12) & 0x3F) as u8);
        r.push(0x80 | ((v >> 6) & 0x3F) as u8);
        r.push(0x80 | (v & 0x3F) as u8);
    }
    assert(r@ =~= encode_scalar(v));
    r
}

/// Whether `v` is a Unicode scalar value.
fn scalar(v: u32) -> (r: bool)
    ensures
        r == is_scalar(v),
{
    v <= 0x7f || (0x80 <= v && v <= 0x7ff) || (0x800 <= v && v <= 0xffff && !(0xd800 <= v && v
        <= 0xdfff)) || (0x10000 <= v && v <= 0x10ffff)
}

/// A bound on the value that the digits of a `\u{...}` escape make before
/// byte `k` of the escape.
spec fn code_bound(k: int) -> int {
    if k <= 4 {
        0x10
    } else if k == 5 {
        0x100
    } else if k == 6 {
        0x1000
    } else if k == 7 {
        0x10000
    } else if k == 8 {
        0x100000
    } else if k == 9 {
        0x1000000
    } else {
        0x10000000
    }
}

/// The escape that starts at the backslash at `c`.
fn escape(raw: &[u8], c: usize) -> (r: Result<(Vec<u8>, usize), Range>)
    requires
        valid_utf8(raw@),
        c < raw@.len(),
        raw@[c as int] == '\\' as u8,
    ensures
        escape_view(r) == escape_at(raw@, c as int),
        r matches Ok((bytes, n)) ==> valid_utf8(bytes@) && c + n <= raw@.len() && is_ascii_byte_at(
            raw@,
            c + n - 1,
        ),
        r matches Err(e) ==> e.start == c && c <= e.end <= raw@.len(),
{
    let ghost b = raw@;
    let len = raw.len();
    proof {
        lemma_ascii_boundary(b, c as int);
    }
    if len - c < 2 {
        return Err(Range { start: c, end: len });
    }
    let b1 = raw[c + 1];
    if let Some(e) = simple(b1) {
        proof {
            lemma_ascii_valid(e);
        }
        let mut v: Vec<u8> = Vec::new();
        v.push(e);
        return Ok((v, 2));
    }
    if b1 == 'x' as u8 {
        if len - c < 4 {
            return Err(Range { start: c, end: len });
        }
        proof {
            lemma_ascii_boundary(b, c + 1);
        }
        let h2 = raw[c + 2];
        if !hex(h2) {
            proof {
                lemma_boundary_width_fits(b, c + 2);
            }
            return Err(Range { start: c, end: c + 2 + lead_width_of(h2) });
        }
        proof {
            lemma_ascii_boundary(b, c + 2);
        }
        let h3 = raw[c + 3];
        if !hex(h3) {
            proof {
                lemma_boundary_width_fits(b, c + 3);
            }
            return Err(Range { start: c, end: c + 3 + lead_width_of(h3) });
        }
        let code = hex_digit(h2) * 16 + hex_digit(h3);
        if code > 0x7f {
            return Err(Range { start: c, end: c + 4 });
        }
        proof {
            lemma_ascii_valid(code);
        }
        let mut v: Vec<u8> = Vec::new();
        v.push(code);
        return Ok((v, 4));
    }
    if b1 == 'u' as u8 {
        if len - c < 4 {
            return Err(Range { start: c, end: len });
        }
        proof {
            lemma_ascii_boundary(b, c + 1);
        }
        let b2 = raw[c + 2];
        if b2 != '{' as u8 {
            proof {
                lemma_boundary_width_fits(b, c + 2);
            }
            return Err(Range { start: c, end: c + 2 + lead_width_of(b2) });
        }
        proof {
            lemma_ascii_boundary(b, c + 2);
        }
        let b3 = raw[c + 3];
        if !hex(b3) {
            proof {
                lemma_boundary_width_fits(b, c + 3);
            }
            return Err(Range { start: c, end: c + 3 + lead_width_of(b3) });
        }
        proof {
            lemma_ascii_boundary(b, c + 3);
        }
        let mut code: u32 = hex_digit(b3) as u32;
        let mut k: usize = 4;
        loop
            invariant
                valid_utf8(b),
                raw@ == b,
                len == b.len(),
                c < len,
                4 <= k <= 10,
                c + k <= len,
                code < code_bound(k as int),
                is_char_boundary(b, c + k),
                escape_at(b, c as int) == braced_escape(b, c as int, k as int, code as int),
            decreases 10 - k,
        {
            if len - c <= k {
                return Err(Range { start: c, end: len });
            }
            let byte = raw[c + k];
            if k == 10 {
                proof {
                    lemma_boundary_width_fits(b, c + k);
                }
                return Err(Range { start: c, end: c + k + lead_width_of(byte) });
            }
            if hex(byte) {
                proof {
                    lemma_ascii_boundary(b, (c + k) as int);
                }
                code = code * 16 + hex_digit(byte) as u32;
                k = k + 1;
            } else if byte == '}' as u8 {
                if scalar(code) {
                    proof {
                        lemma_encode_scalar_valid(code);
                    }
                    let v = encode(code);
                    return Ok((v, k + 1));
                } else {
                    return Err(Range { start: c, end: c + k + 1 });
                }
            } else {
                proof {
                    lemma_boundary_width_fits(b, c + k);
                }
                return Err(Range { start: c, end: c + k + lead_width_of(byte) });
            }
        }
    }
    proof {
        lemma_ascii_boundary(b, c as int);
        lemma_boundary_width_fits(b, c + 1);
    }
    Err(Range { start: c, end: c + 1 + lead_width_of(b1) })
}

/// Whether the byte at `i` is ASCII.
pub open spec fn is_ascii_byte_at(bytes: Seq<u8>, i: int) -> bool {
    0 <= i < bytes.len() && bytes[i] < 0x80
}

/// Prefixing twice is prefixing once with the two joined.
proof fn lemma_prepend_twice(a: Seq<u8>, b: Seq<u8>, r: Result<Seq<u8>, Range>)
    ensures
        prepend(a, prepend(b, r)) == prepend(a + b, r),
{
    if let Ok(rest) = r {
        assert(a + (b + rest) =~= (a + b) + rest);
    }
}

/// The first backslash at or after `p`.
fn find_from(raw: &[u8], p: usize) -> (r: Option<usize>)
    requires
        p <= raw@.len(),
    ensures
        r matches Some(d) ==> find_backslash(raw@, p as int) == Some(d as int),
        r is None ==> find_backslash(raw@, p as int) is None,
{
    let mut i = p;
    while i < raw.len()
        invariant
            p <= i <= raw@.len(),
            find_backslash(raw@, p as int) == find_backslash(raw@, i as int),
        decreases raw@.len() - i,
    {
        if raw[i] == '\\' as u8 {
            return Some(i);
        }
        i = i + 1;
    }
    None
}

/// Appends `raw[a..d]` to `out`.
fn push_slice(out: &mut Vec<u8>, raw: &[u8], a: usize, d: usize)
    requires
        a <= d <= raw@.len(),
    ensures
        final(out)@ == old(out)@ + raw@.subrange(a as int, d as int),
{
    let mut i = a;
    while i < d
        invariant
            a <= i <= d <= raw@.len(),
            out@ == old(out)@ + raw@.subrange(a as int, i as int),
        decreases d - i,
    {
        out.push(raw[i]);
        i = i + 1;
        assert(out@ =~= old(out)@ + raw@.subrange(a as int, i as int));
    }
}

impl<'a> LoxString<'a> {
    /// Whether the text is borrowed from elsewhere rather than owned.
    pub closed spec fn borrowed(&self) -> bool {
        self.repr is Borrowed
    }

    /// The string that borrows `s`.
    pub closed spec fn of_str(s: &'a str) -> Self {
        LoxString { repr: Repr::Borrowed(s) }
    }

    /// The string that owns the text of `s`.
    pub closed spec fn of_string(s: String) -> Self {
        LoxString { repr: Repr::Shared(Rc::new(s)) }
    }

    /// What `of_str` and `of_string` hold.
    pub broadcast proof fn lemma_of(s: &'a str, t: String)
        ensures
            (#[trigger] Self::of_str(s))@ == s.spec_bytes(),
            Self::of_str(s).borrowed(),
            (#[trigger] Self::of_string(t))@ == encode_utf8(t@),
            !Self::of_string(t).borrowed(),
    {
    }

    /// Every string's bytes are valid UTF-8.
    pub proof fn lemma_valid(s: Self)
        ensures
            valid_utf8(s@),
    {
        match s.repr {
            Repr::Borrowed(t) => encode_utf8_valid_utf8(t@),
            Repr::Shared(t) => encode_utf8_valid_utf8((*t)@),
        }
    }

    /// A string that owns the text encoded by `bytes`.
    fn owned(bytes: Vec<u8>) -> (s: Self)
        requires
            valid_utf8(bytes@),
        ensures
            s@ == bytes@,
            !s.borrowed(),
    {
        match string_from_utf8(bytes) {
            Some(text) => LoxString { repr: Repr::Shared(Rc::new(text)) },
            None => {
                assert(false);
                LoxString { repr: Repr::Borrowed("") }
            },
        }
    }

    /// The string that a literal's body `raw` stands for, with its escapes
    /// `\0`, `\t`, `\n`, `\r`, `\"`, `\\`, `\xHH` (up to 0x7F) and `\u{H..}`
    /// (one to six digits naming a Unicode scalar value) replaced; or the span
    /// within `raw` of the first escape that is not one of these. Text with no
    /// backslash is borrowed, any other is owned.
    pub fn unescape(raw: &'a str) -> (r: Result<Self, Range>)
        ensures
            r is Ok <==> unescape_bytes(raw.spec_bytes()) is Ok,
            r matches Ok(s) ==> Ok::<Seq<u8>, Range>(s@) == unescape_bytes(raw.spec_bytes()) && (
            s.borrowed() <==> find_backslash(raw.spec_bytes(), 0) is None),
            r matches Err(e) ==> Err::<Seq<u8>, Range>(e) == unescape_bytes(raw.spec_bytes())
                && on_boundaries(raw.spec_bytes(), e),
    {
        let bytes = raw.as_bytes();
        let len = bytes.len();
        let ghost b = bytes@;
        let first = find_from(bytes, 0);
        let mut cursor = match first {
            None => {
                return Ok(LoxString { repr: Repr::Borrowed(raw) });
            },
            Some(c) => c,
        };
        proof {
            lemma_find_backslash(b, 0);
            is_char_boundary_start_end_of_seq(b);
            lemma_ascii_boundary(b, cursor as int);
            lemma_valid_segment(b, 0, cursor as int);
        }
        let mut out: Vec<u8> = Vec::new();
        push_slice(&mut out, bytes, 0, cursor);
        assert(out@ =~= b.subrange(0, cursor as int));
        loop
            invariant
                valid_utf8(b),
                bytes@ == b,
                raw.spec_bytes() == b,
                len == b.len(),
                cursor < len,
                b[cursor as int] == '\\' as u8,
                valid_utf8(out@),
                unescape_bytes(b) == prepend(out@, unescape_from(b, cursor as int)),
                find_backslash(b, 0) is Some,
            decreases len - cursor,
        {
            let (esc, n) = match escape(bytes, cursor) {
                Err(e) => {
                    assert(escape_at(b, cursor as int) == Err::<(Seq<u8>, int), Range>(e));
                    assert(unescape_from(b, cursor as int) == Err::<Seq<u8>, Range>(e));
                    proof {
                        lemma_unescape_error_boundaries(b);
                    }
                    return Err(e);
                },
                Ok(pair) => pair,
            };
            let next = cursor + n;
            proof {
                lemma_escape_len(b, cursor as int);
                lemma_ascii_boundary(b, next - 1);
                lemma_find_backslash(b, next as int);
                valid_utf8_concat(out@, esc@);
            }
            let ghost before = out@;
            push_slice(&mut out, esc.as_slice(), 0, esc.len());
            assert(esc@.subrange(0, esc@.len() as int) =~= esc@);
            match find_from(bytes, next) {
                None => {
                    proof {
                        lemma_valid_segment(b, next as int, len as int);
                    }
                    push_slice(&mut out, bytes, next, len);
                    proof {
                        valid_utf8_concat(before + esc@, b.subrange(next as int, len as int));
                        lemma_prepend_twice(before, esc@, Ok(b.subrange(next as int, len as int)));
                    }
                    let s = Self::owned(out);
                    return Ok(s);
                },
                Some(d) => {
                    proof {
                        lemma_ascii_boundary(b, d as int);
                        lemma_valid_segment(b, next as int, d as int);
                    }
                    push_slice(&mut out, bytes, next, d);
                    proof {
                        valid_utf8_concat(before + esc@, b.subrange(next as int, d as int));
                        let seg = b.subrange(next as int, d as int);
                        lemma_prepend_twice(before, esc@ + seg, unescape_from(b, d as int));
                        assert(before + esc@ + seg =~= before + (esc@ + seg));
                    }
                    cursor = d;
                },
            }
        }
    }

    /// The text.
    pub fn as_str(&self) -> (s: &str)
        ensures
            s.spec_bytes() == self@,
    {
        match &self.repr {
            Repr::Borrowed(s) => s,
            Repr::Shared(s) => s.as_str(),
        }
    }

    /// Whether the text is borrowed from elsewhere rather than owned.
    pub fn is_borrowed(&self) -> (r: bool)
        ensures
            r == self.borrowed(),
    {
        match &self.repr {
            Repr::Borrowed(_) => true,
            Repr::Shared(_) => false,
        }
    }
}

/// Whether two byte slices hold the same bytes.
fn same_bytes(a: &[u8], b: &[u8]) -> (r: bool)
    ensures
        r == (a@ == b@),
{
    if a.len() != b.len() {
        return false;
    }
    let mut i: usize = 0;
    while i < a.len()
        invariant
            a@.len() == b@.len(),
            i <= a@.len(),
            forall|j: int| 0 <= j < i ==> a@[j] == b@[j],
        decreases a@.len() - i,
    {
        if a[i] != b[i] {
            return false;
        }
        i = i + 1;
    }
    assert(a@ =~= b@);
    true
}

/// Whether adding `lhs` and `rhs` gives a borrowed string: where both are
/// empty it always does, where one is empty it gives back the other one,
/// and otherwise it makes an owned string.
pub open spec fn add_is_borrowed(lhs: LoxString, rhs: LoxString) -> bool {
    if lhs@.len() == 0 && rhs@.len() == 0 {
        true
    } else if lhs@.len() == 0 {
        rhs.borrowed()
    } else if rhs@.len() == 0 {
        lhs.borrowed()
    } else {
        false
    }
}

impl<'a> core::ops::Add for LoxString<'a> {
    type Output = Self;

    /// The concatenation of two strings. Where one of them is empty the other
    /// one is given back as it is; where both are empty the result borrows a
    /// static empty text.
    fn add(self, rhs: Self) -> (r: Self)
        ensures
            r@ == self@ + rhs@,
            r.borrowed() == add_is_borrowed(self, rhs),
            self@.len() == 0 && rhs@.len() > 0 ==> r == rhs,
            self@.len() > 0 && rhs@.len() == 0 ==> r == self,
            self@.len() == 0 && rhs@.len() == 0 && self.borrowed() ==> r == self,
            self@.len() == 0 && rhs@.len() == 0 && !self.borrowed() && rhs.borrowed()
                ==> r == rhs,
    {
        let lhs_text = self.as_str();
        let rhs_text = rhs.as_str();
        let lhs_bytes = lhs_text.as_bytes();
        let rhs_bytes = rhs_text.as_bytes();
        let lhs_empty = lhs_bytes.len() == 0;
        let rhs_empty = rhs_bytes.len() == 0;
        if lhs_empty && rhs_empty {
            if self.is_borrowed() {
                return self;
            } else if rhs.is_borrowed() {
                return rhs;
            } else {
                proof {
                    reveal_strlit("");
                }
                assert(""@ =~= Seq::<char>::empty());
                assert(self@ + rhs@ =~= Seq::<u8>::empty());
                return LoxString { repr: Repr::Borrowed("") };
            }
        }
        if lhs_empty {
            assert(self@ + rhs@ =~= rhs@);
            return rhs;
        }
        if rhs_empty {
            assert(self@ + rhs@ =~= self@);
            return self;
        }
        let mut bytes: Vec<u8> = Vec::new();
        push_slice(&mut bytes, lhs_bytes, 0, lhs_bytes.len());
        push_slice(&mut bytes, rhs_bytes, 0, rhs_bytes.len());
        proof {
            assert(lhs_bytes@.subrange(0, lhs_bytes@.len() as int) =~= self@);
            assert(rhs_bytes@.subrange(0, rhs_bytes@.len() as int) =~= rhs@);
            valid_utf8_concat(self@, rhs@);
        }
        Self::owned(bytes)
    }
}

/// The operator's general specification is not used for strings: what `+`
/// gives is stated in the `ensures` of `add` above, over the view, since the
/// shared text it makes is a new allocation.
impl<'a> vstd::std_specs::ops::AddSpecImpl for LoxString<'a> {
    open spec fn obeys_add_spec() -> bool {
        false
    }

    open spec fn add_req(self, rhs: Self) -> bool {
        true
    }

    open spec fn add_spec(self, rhs: Self) -> Self {
        arbitrary()
    }
}

impl<'a> From<&'a str> for LoxString<'a> {
    /// The string that borrows `value`.
    fn from(value: &'a str) -> (s: Self) {
        LoxString { repr: Repr::Borrowed(value) }
    }
}

impl<'a> vstd::std_specs::convert::FromSpecImpl<&'a str> for LoxString<'a> {
    open spec fn obeys_from_spec() -> bool {
        true
    }

    open spec fn from_spec(v: &'a str) -> Self {
        LoxString::of_str(v)
    }
}

impl<'a> From<String> for LoxString<'a> {
    /// The string that owns the text of `value`.
    fn from(value: String) -> (s: Self) {
        LoxString { repr: Repr::Shared(Rc::new(value)) }
    }
}

impl<'a> vstd::std_specs::convert::FromSpecImpl<String> for LoxString<'a> {
    open spec fn obeys_from_spec() -> bool {
        true
    }

    open spec fn from_spec(v: String) -> Self {
        LoxString::of_string(v)
    }
}

impl<'a> PartialEq for LoxString<'a> {
    /// Whether the two texts are the same.
    fn eq(&self, other: &Self) -> (r: bool) {
        same_bytes(self.as_str().as_bytes(), other.as_str().as_bytes())
    }
}

impl<'a> vstd::std_specs::cmp::PartialEqSpecImpl for LoxString<'a> {
    open spec fn obeys_eq_spec() -> bool {
        true
    }

    open spec fn eq_spec(&self, other: &Self) -> bool {
        self@ == other@
    }
}

impl<'a, 'b> PartialEq<&'b str> for LoxString<'a> {
    /// Whether the text is `other`.
    fn eq(&self, other: &&'b str) -> (r: bool) {
        same_bytes(self.as_str().as_bytes(), other.as_bytes())
    }
}

impl<'a, 'b> vstd::std_specs::cmp::PartialEqSpecImpl<&'b str> for LoxString<'a> {
    open spec fn obeys_eq_spec() -> bool {
        true
    }

    open spec fn eq_spec(&self, other: &&'b str) -> bool {
        self@ == other.spec_bytes()
    }
}

impl<'a> Eq for LoxString<'a> {

}

/// How two byte strings order: byte by byte, a proper prefix first.
pub open spec fn byte_order(a: Seq<u8>, b: Seq<u8>) -> Ordering
    decreases a.len(),
{
    if a.len() == 0 {
        if b.len() == 0 {
            Ordering::Equal
        } else {
            Ordering::Less
        }
    } else if b.len() == 0 {
        Ordering::Greater
    } else if a[0] < b[0] {
        Ordering::Less
    } else if a[0] > b[0] {
        Ordering::Greater
    } else {
        byte_order(a.drop_first(), b.drop_first())
    }
}

/// How many bytes `a` and `b` have in common at their start, up to the
/// first where they differ or the end of one of them.
fn common_prefix(a: &[u8], b: &[u8]) -> (n: usize)
    ensures
        n <= a@.len(),
        n <= b@.len(),
        a@.take(n as int) == b@.take(n as int),
        n < a@.len() && n < b@.len() ==> a@[n as int] != b@[n as int],
{
    let mut i: usize = 0;
    while i < a.len() && i < b.len() && a[i] == b[i]
        invariant
            i <= a@.len(),
            i <= b@.len(),
            a@.take(i as int) == b@.take(i as int),
        decreases a@.len() - i,
    {
        assert(a@.take(i + 1) =~= a@.take(i as int).push(a@[i as int]));
        assert(b@.take(i + 1) =~= b@.take(i as int).push(b@[i as int]));
        i = i + 1;
    }
    i
}

/// Bytes in common at the start do not decide the order.
proof fn lemma_byte_order_prefix(a: Seq<u8>, b: Seq<u8>, n: int)
    requires
        0 <= n <= a.len(),
        n <= b.len(),
        a.take(n) == b.take(n),
    ensures
        byte_order(a, b) == byte_order(a.skip(n), b.skip(n)),
    decreases n,
{
    if n > 0 {
        assert(a[0] == a.take(n)[0]);
        assert(b[0] == b.take(n)[0]);
        assert(a.drop_first().take(n - 1) =~= a.take(n).drop_first());
        assert(b.drop_first().take(n - 1) =~= b.take(n).drop_first());
        lemma_byte_order_prefix(a.drop_first(), b.drop_first(), n - 1);
        assert(a.drop_first().skip(n - 1) =~= a.skip(n));
        assert(b.drop_first().skip(n - 1) =~= b.skip(n));
    } else {
        assert(a.skip(0) =~= a);
        assert(b.skip(0) =~= b);
    }
}

/// `n` as an integer.
proof fn natural(n: usize) -> (m: int)
    ensures
        m == n,
{
    n as int
}

/// How the byte slices `a` and `b` order.
fn order_bytes(a: &[u8], b: &[u8]) -> (r: Ordering)
    ensures
        r == byte_order(a@, b@),
{
    let n = common_prefix(a, b);
    proof {
        let m = natural(n);
        lemma_byte_order_prefix(a@, b@, m);
        assert(a@.skip(m).len() == a@.len() - m);
        assert(b@.skip(m).len() == b@.len() - m);
        if n < a@.len() {
            assert(a@.skip(m)[0] == a@[m]);
        }
        if n < b@.len() {
            assert(b@.skip(m)[0] == b@[m]);
        }
    }
    if n < a.len() && n < b.len() {
        if a[n] < b[n] {
            Ordering::Less
        } else {
            Ordering::Greater
        }
    } else if n < a.len() {
        Ordering::Greater
    } else if n < b.len() {
        Ordering::Less
    } else {
        Ordering::Equal
    }
}

impl<'a> PartialOrd for LoxString<'a> {
    /// How the two texts order, as `str` orders them: byte by byte.
    fn partial_cmp(&self, other: &Self) -> (r: Option<Ordering>) {
        Some(order_bytes(self.as_str().as_bytes(), other.as_str().as_bytes()))
    }
}

impl<'a> PartialOrdSpecImpl for LoxString<'a> {
    open spec fn obeys_partial_cmp_spec() -> bool {
        true
    }

    open spec fn partial_cmp_spec(&self, other: &Self) -> Option<Ordering> {
        Some(byte_order(self@, other@))
    }
}

} // verus!

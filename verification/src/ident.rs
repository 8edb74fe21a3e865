//! Identifier character classes, as the `unicode-ident` crate computes them
//! from the Unicode tables (Unicode Standard Annex #31).

use vstd::prelude::*;

verus! {

/// Whether `c` has the Unicode property XID_Start, by `unicode_ident::is_xid_start`.
pub uninterp spec fn xid_start(c: char) -> bool;

/// Whether `c` has the Unicode property XID_Continue, by `unicode_ident::is_xid_continue`.
pub uninterp spec fn xid_continue(c: char) -> bool;

/// ASCII letters.
pub open spec fn is_ascii_letter(c: char) -> bool {
    ('a' <= c <= 'z') || ('A' <= c <= 'Z')
}

/// ASCII letters, digits and the underscore.
pub open spec fn is_ascii_word(c: char) -> bool {
    is_ascii_letter(c) || ('0' <= c <= '9') || c == '_'
}

/// Calls `unicode_ident::is_xid_start`. Its result is named `xid_start(c)`;
/// for ASCII characters the crate's bit table `ASCII_START` admits exactly
/// the letters, which the second clause states.
#[verifier::external_body]
pub(crate) fn is_xid_start(c: char) -> (r: bool)
    ensures
        r == xid_start(c),
        (c as u32) < 0x80 ==> (r <==> is_ascii_letter(c)),
{
    unicode_ident::is_xid_start(c)
}

/// Calls `unicode_ident::is_xid_continue`. Its result is named
/// `xid_continue(c)`; for ASCII characters the crate's bit table
/// `ASCII_CONTINUE` admits exactly letters, digits and `_`, which the second
/// clause states.
#[verifier::external_body]
pub(crate) fn is_xid_continue(c: char) -> (r: bool)
    ensures
        r == xid_continue(c),
        (c as u32) < 0x80 ==> (r <==> is_ascii_word(c)),
{
    unicode_ident::is_xid_continue(c)
}

} // verus!

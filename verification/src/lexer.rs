//! The lexer: it turns source text into tokens, one call at a time.

use crate::ident::{is_xid_continue, is_xid_start, xid_continue, xid_start};
use crate::range::Range;
use crate::text::{char_at, decode_at, is_ascii_byte, lemma_ascii_boundary, lemma_next_boundary, width_at};
use crate::token::{keyword_of, lemma_keyword_spelling, Keyword, Token, TokenKind};
use vstd::prelude::*;
use vstd::string::StringSliceAdditionalSpecFns;
use vstd::utf8::*;

verus! {

broadcast use vstd::utf8::group_utf8_lib;

/// An error met while scanning a token.
#[derive(Debug, Clone, Copy, PartialEq, Eq, Structural)]
pub enum LexError {
    /// A character that starts no token.
    UnexpectedCharacter { char: char, range: Range },
    /// A string literal whose closing quote is missing.
    UnterminatedString,
}

/// The lexer's errors, under the name that users of the lexer alone know them by.
pub type LexerError = LexError;

/// ASCII decimal digits.
pub open spec fn is_digit(b: u8) -> bool {
    '0' as u8 <= b <= '9' as u8
}

/// ASCII letters.
pub open spec fn is_alpha(b: u8) -> bool {
    ('a' as u8 <= b <= 'z' as u8) || ('A' as u8 <= b <= 'Z' as u8)
}

/// ASCII white space: space, tab, line feed, form feed and carriage return.
pub open spec fn is_space(b: u8) -> bool {
    b == ' ' as u8 || b == '\t' as u8 || b == '\n' as u8 || b == 0x0c || b == '\r' as u8
}

/// The kind of the one-byte tokens that no other byte can extend.
pub open spec fn single_kind(b: u8) -> Option<TokenKind> {
    if b == '(' as u8 {
        Some(TokenKind::LParen)
    } else if b == ')' as u8 {
        Some(TokenKind::RParen)
    } else if b == '{' as u8 {
        Some(TokenKind::LBrace)
    } else if b == '}' as u8 {
        Some(TokenKind::RBrace)
    } else if b == ';' as u8 {
        Some(TokenKind::Semicolon)
    } else if b == ',' as u8 {
        Some(TokenKind::Comma)
    } else if b == '.' as u8 {
        Some(TokenKind::Dot)
    } else if b == '+' as u8 {
        Some(TokenKind::Plus)
    } else if b == '-' as u8 {
        Some(TokenKind::Minus)
    } else if b == '*' as u8 {
        Some(TokenKind::Star)
    } else {
        None
    }
}

/// The kind of a one-byte operator that a following `=` turns into its
/// two-byte form: `!`, `=`, `<` and `>`, with the short and the long kind.
pub open spec fn equal_pair(b: u8) -> Option<(TokenKind, TokenKind)> {
    if b == '!' as u8 {
        Some((TokenKind::Bang, TokenKind::BangEqual))
    } else if b == '=' as u8 {
        Some((TokenKind::Equal, TokenKind::EqualEqual))
    } else if b == '<' as u8 {
        Some((TokenKind::Less, TokenKind::LessEqual))
    } else if b == '>' as u8 {
        Some((TokenKind::Greater, TokenKind::GreaterEqual))
    } else {
        None
    }
}

/// The end of the run of digits that starts at `p`.
pub open spec fn digits_end(bytes: Seq<u8>, p: int) -> int
    decreases bytes.len() - p,
{
    if 0 <= p < bytes.len() && is_digit(bytes[p]) {
        digits_end(bytes, p + 1)
    } else {
        p
    }
}

/// The end of a number whose first digit ends at `p`: more digits, then
/// optionally a dot and at least one digit with more digits after it.
pub open spec fn number_end(bytes: Seq<u8>, p: int) -> int {
    let e = digits_end(bytes, p);
    if e + 1 < bytes.len() && bytes[e] == '.' as u8 && is_digit(bytes[e + 1]) {
        digits_end(bytes, e + 2)
    } else {
        e
    }
}

/// The end of the run of XID_Continue characters that starts at `p`.
pub open spec fn ident_end(bytes: Seq<u8>, p: int) -> int
    decreases bytes.len() - p,
{
    if 0 <= p < bytes.len() && xid_continue(char_at(bytes, p)) && p + width_at(bytes, p)
        <= bytes.len() {
        ident_end(bytes, p + width_at(bytes, p))
    } else {
        p
    }
}

/// The offset just after the first line feed at or after `p`, if any.
pub open spec fn comment_end(bytes: Seq<u8>, p: int) -> Option<int>
    decreases bytes.len() - p,
{
    if p < 0 || p >= bytes.len() {
        None
    } else if bytes[p] == '\n' as u8 {
        Some(p + 1)
    } else {
        comment_end(bytes, p + 1)
    }
}

/// The offset just after the closing quote of a string literal whose body
/// starts at `p`; a backslash makes the byte after it part of the body.
pub open spec fn string_end(bytes: Seq<u8>, p: int) -> Option<int>
    decreases bytes.len() - p,
{
    if p < 0 || p >= bytes.len() {
        None
    } else if bytes[p] == '\\' as u8 {
        if p + 1 >= bytes.len() {
            None
        } else {
            string_end(bytes, p + 2)
        }
    } else if bytes[p] == '"' as u8 {
        Some(p + 1)
    } else {
        string_end(bytes, p + 1)
    }
}

/// The kind of a word: a keyword where it spells one, else an identifier.
pub open spec fn word_kind(lexeme: Seq<u8>) -> TokenKind {
    match keyword_of(lexeme) {
        Some(keyword) => TokenKind::Keyword(keyword),
        None => TokenKind::Identifier,
    }
}

/// The token `kind` over `start..end`.
pub open spec fn token(kind: TokenKind, start: int, end: int) -> Token {
    Token { kind, range: Range { start: start as usize, end: end as usize } }
}

/// A word token over `start..end`.
pub open spec fn word(bytes: Seq<u8>, start: int, end: int) -> Token {
    token(word_kind(bytes.subrange(start, end)), start, end)
}

/// What scanning from the byte at `p` gives, a token or an error, and where
/// scanning ends. White space and comments are not handled here.
pub open spec fn scan(bytes: Seq<u8>, p: int) -> (Result<Token, LexError>, int) {
    let b = bytes[p];
    if single_kind(b) is Some {
        (Ok(token(single_kind(b)->0, p, p + 1)), p + 1)
    } else if b == '/' as u8 {
        (Ok(token(TokenKind::Slash, p, p + 1)), p + 1)
    } else if let Some((short, long)) = equal_pair(b) {
        if p + 1 < bytes.len() && bytes[p + 1] == '=' as u8 {
            (Ok(token(long, p, p + 2)), p + 2)
        } else {
            (Ok(token(short, p, p + 1)), p + 1)
        }
    } else if is_alpha(b) || b == '_' as u8 {
        let e = ident_end(bytes, p + 1);
        (Ok(word(bytes, p, e)), e)
    } else if b >= 0x80 {
        let w = width_at(bytes, p);
        if !xid_start(char_at(bytes, p)) {
            (
                Err(
                    LexError::UnexpectedCharacter {
                        char: char_at(bytes, p),
                        range: Range { start: p as usize, end: (p + w) as usize },
                    },
                ),
                p + w,
            )
        } else {
            let e = ident_end(bytes, p + w);
            (Ok(word(bytes, p, e)), e)
        }
    } else if b == '"' as u8 {
        match string_end(bytes, p + 1) {
            None => (Err(LexError::UnterminatedString), bytes.len() as int),
            Some(e) => (Ok(token(TokenKind::String, p, e)), e),
        }
    } else if is_digit(b) {
        let e = number_end(bytes, p + 1);
        (Ok(token(TokenKind::Number, p, e)), e)
    } else {
        (
            Err(
                LexError::UnexpectedCharacter {
                    char: b as char,
                    range: Range { start: p as usize, end: (p + 1) as usize },
                },
            ),
            p + 1,
        )
    }
}

/// A comment ends after its start and within the input.
pub proof fn lemma_comment_end_bounds(bytes: Seq<u8>, p: int)
    ensures
        comment_end(bytes, p) matches Some(q) ==> p < q <= bytes.len(),
    decreases bytes.len() - p,
{
    if 0 <= p < bytes.len() && bytes[p] != '\n' as u8 {
        lemma_comment_end_bounds(bytes, p + 1);
    }
}

/// Whether a `//` comment starts at `p`.
pub open spec fn comment_at(bytes: Seq<u8>, p: int) -> bool {
    0 <= p && p + 1 < bytes.len() && bytes[p] == '/' as u8 && bytes[p + 1] == '/' as u8
}

/// What the lexer gives from offset `p`: it skips white space and comments,
/// then scans one token; the second part is where it stops. A comment that
/// runs to the end of the input ends the input.
pub closed spec fn lex(bytes: Seq<u8>, p: int) -> (Option<Result<Token, LexError>>, int)
    decreases bytes.len() - p,
{
    if p < 0 || p >= bytes.len() {
        (None, p)
    } else if comment_at(bytes, p) {
        match comment_end(bytes, p + 2) {
            None => (None, bytes.len() as int),
            Some(q) => {
                proof {
                    lemma_comment_end_bounds(bytes, p + 2);
                }
                lex(bytes, q)
            },
        }
    } else if is_space(bytes[p]) {
        lex(bytes, p + 1)
    } else {
        (Some(scan(bytes, p).0), scan(bytes, p).1)
    }
}

/// `lex` unfolded once: past the end nothing; a comment is skipped up to
/// its line feed, or ends the input where it has none; white space is
/// skipped; anything else is scanned.
pub proof fn lemma_lex_unfold(bytes: Seq<u8>, p: int)
    ensures
        lex(bytes, p) == (if p < 0 || p >= bytes.len() {
            (None, p)
        } else if comment_at(bytes, p) {
            match comment_end(bytes, p + 2) {
                None => (None, bytes.len() as int),
                Some(q) => lex(bytes, q),
            }
        } else if is_space(bytes[p]) {
            lex(bytes, p + 1)
        } else {
            (Some(scan(bytes, p).0), scan(bytes, p).1)
        }),
{
}

/// Once the lexer gives no token it stays at the end of the source, and it
/// gives no token again.
pub proof fn lemma_lex_exhausted(bytes: Seq<u8>, p: int)
    requires
        0 <= p <= bytes.len(),
    ensures
        lex(bytes, p).0 is None ==> lex(bytes, p).1 == bytes.len() && lex(
            bytes,
            lex(bytes, p).1,
        ) == (None::<Result<Token, LexError>>, bytes.len() as int),
    decreases bytes.len() - p,
{
    if p < bytes.len() {
        if comment_at(bytes, p) {
            lemma_comment_end_bounds(bytes, p + 2);
            match comment_end(bytes, p + 2) {
                None => {},
                Some(q) => {
                    lemma_lex_exhausted(bytes, q);
                },
            }
        } else if is_space(bytes[p]) {
            lemma_lex_exhausted(bytes, p + 1);
        }
    }
}

/// Whether every byte of `bytes` from `a` up to `b` is white space or part
/// of a `//` comment, which runs through the next line feed or to the end.
pub open spec fn blank(bytes: Seq<u8>, a: int, b: int) -> bool
    decreases b - a,
{
    if a >= b {
        a == b
    } else if b > bytes.len() {
        false
    } else if comment_at(bytes, a) {
        match comment_end(bytes, a + 2) {
            None => b == bytes.len(),
            Some(q) => if a < q <= b {
                blank(bytes, q, b)
            } else {
                false
            },
        }
    } else {
        is_space(bytes[a]) && blank(bytes, a + 1, b)
    }
}

/// What `lex` skips before the item it gives, or before the end: white
/// space and comments only, and a token starts where the skipping ends.
pub proof fn lemma_lex_blank(bytes: Seq<u8>, p: int)
    requires
        0 <= p <= bytes.len() <= usize::MAX,
    ensures
        lex(bytes, p).0 is None ==> blank(bytes, p, bytes.len() as int),
        lex(bytes, p).0 matches Some(Ok(t)) ==> p <= t.range.start && blank(
            bytes,
            p,
            t.range.start as int,
        ),
    decreases bytes.len() - p,
{
    if p < bytes.len() {
        if comment_at(bytes, p) {
            lemma_comment_end_bounds(bytes, p + 2);
            match comment_end(bytes, p + 2) {
                None => {},
                Some(q) => {
                    lemma_lex_blank(bytes, q);
                },
            }
        } else if is_space(bytes[p]) {
            lemma_lex_blank(bytes, p + 1);
        }
    }
}

/// Whether the token `t` spans some of `bytes`, from one character
/// boundary to another.
pub open spec fn token_in(bytes: Seq<u8>, t: Token) -> bool {
    &&& t.range.start < t.range.end <= bytes.len()
    &&& is_char_boundary(bytes, t.range.start as int)
    &&& is_char_boundary(bytes, t.range.end as int)
}

/// Where the last of `items` ends, or 0 where there is none.
pub open spec fn end_of(items: Seq<Result<Token, LexError>>) -> int {
    if items.len() == 0 {
        0
    } else {
        match items.last() {
            Ok(t) => t.range.end as int,
            Err(_) => 0,
        }
    }
}

/// Whether every one of `items` is a token.
pub open spec fn all_tokens(items: Seq<Result<Token, LexError>>) -> bool {
    forall|i: int| 0 <= i < items.len() ==> items[i] is Ok
}

/// Whether `items` are tokens of `bytes` that follow one another from the
/// start, each after nothing but white space and comments.
pub open spec fn lexed(bytes: Seq<u8>, items: Seq<Result<Token, LexError>>) -> bool
    decreases items.len(),
{
    if items.len() == 0 {
        true
    } else {
        let rest = items.drop_last();
        match items.last() {
            Ok(t) => lexed(bytes, rest) && token_in(bytes, t) && blank(
                bytes,
                end_of(rest),
                t.range.start as int,
            ),
            Err(_) => false,
        }
    }
}

/// A run of tokens as the lexer hands them out is in order, and there are
/// no more of them than bytes up to where the last one ends.
pub proof fn lemma_lexed(bytes: Seq<u8>, items: Seq<Result<Token, LexError>>)
    requires
        lexed(bytes, items),
    ensures
        all_tokens(items),
        forall|i: int| 0 <= i < items.len() ==> token_in(bytes, #[trigger] items[i]->Ok_0),
        forall|i: int, j: int|
            0 <= i < j < items.len() ==> (#[trigger] items[i])->Ok_0.range.end <= (
            #[trigger] items[j])->Ok_0.range.start,
        items.len() <= end_of(items) <= bytes.len(),
    decreases items.len(),
{
    if items.len() > 0 {
        let rest = items.drop_last();
        lemma_lexed(bytes, rest);
        lemma_blank_bounds(bytes, end_of(rest), items.last()->Ok_0.range.start as int);
        assert forall|i: int| 0 <= i < items.len() implies items[i] is Ok by {
            if i < rest.len() {
                assert(items[i] == rest[i]);
            }
        }
        assert forall|i: int| 0 <= i < items.len() implies token_in(bytes, #[trigger] items[i]->Ok_0) by {
            if i < rest.len() {
                assert(items[i] == rest[i]);
            }
        }
        assert forall|i: int, j: int| 0 <= i < j < items.len() implies (#[trigger] items[i])->Ok_0.range.end
            <= (#[trigger] items[j])->Ok_0.range.start by {
            assert(items[i] == rest[i]);
            if j < rest.len() {
                assert(items[j] == rest[j]);
            } else if rest.len() > 0 {
                assert(rest[i] == rest[rest.len() - 1] || rest[i]->Ok_0.range.end <= rest[rest.len() - 1]->Ok_0.range.start);
            }
        }
    }
}

/// Two blank stretches, one after the other, make one.
pub proof fn lemma_blank_join(bytes: Seq<u8>, a: int, b: int, c: int)
    requires
        blank(bytes, a, b),
        blank(bytes, b, c),
    ensures
        blank(bytes, a, c),
    decreases b - a,
{
    lemma_blank_bounds(bytes, a, b);
    lemma_blank_bounds(bytes, b, c);
    if a < b {
        if comment_at(bytes, a) {
            match comment_end(bytes, a + 2) {
                None => {},
                Some(q) => {
                    lemma_blank_join(bytes, q, b, c);
                },
            }
        } else {
            lemma_blank_join(bytes, a + 1, b, c);
        }
    }
}

/// The items the lexer hands out on its way from `p` to `end`, where its
/// steps from `p` land on `end`.
pub open spec fn run_to(bytes: Seq<u8>, p: int, end: int) -> Option<Seq<Result<Token, LexError>>>
    decreases end - p,
{
    if p == end {
        Some(Seq::empty())
    } else if p > end {
        None
    } else {
        match lex(bytes, p) {
            (Some(x), q) => if p < q <= end {
                match run_to(bytes, q, end) {
                    Some(rest) => Some(seq![x] + rest),
                    None => None,
                }
            } else {
                None
            },
            (None, q) => if q == end {
                Some(Seq::empty())
            } else {
                None
            },
        }
    }
}

/// One more step of the lexer extends its run.
pub proof fn lemma_run_step(bytes: Seq<u8>, p: int, end: int)
    requires
        0 <= p <= end <= bytes.len(),
        run_to(bytes, p, end) is Some,
        end < lex(bytes, end).1 || lex(bytes, end).0 is None,
    ensures
        run_to(bytes, p, lex(bytes, end).1) == match lex(bytes, end).0 {
            Some(x) => Some(run_to(bytes, p, end)->0.push(x)),
            None => run_to(bytes, p, end),
        },
    decreases end - p,
{
    lemma_lex_exhausted(bytes, end);
    let q = lex(bytes, end).1;
    if p == end {
        if lex(bytes, end).0 is Some {
            assert(run_to(bytes, q, q) == Some(Seq::<Result<Token, LexError>>::empty()));
            assert(seq![lex(bytes, end).0->0] + Seq::<Result<Token, LexError>>::empty() =~= Seq::<
                Result<Token, LexError>,
            >::empty().push(lex(bytes, end).0->0));
        }
    } else {
        lemma_lex_exhausted(bytes, p);
        match lex(bytes, p) {
            (Some(y), q1) => {
                lemma_run_step(bytes, q1, end);
                let rest = run_to(bytes, q1, end)->0;
                if let Some(x) = lex(bytes, end).0 {
                    assert(seq![y] + rest.push(x) =~= (seq![y] + rest).push(x));
                }
            },
            (None, q1) => {},
        }
    }
}

/// One step of the lexer from `p` keeps its run a run of tokens where it
/// was one: a token follows blank text, and the end follows blank text.
proof fn lemma_history_step(bytes: Seq<u8>, p: int)
    requires
        0 <= p <= bytes.len() <= usize::MAX,
        run_to(bytes, 0, p) is Some,
        all_tokens(run_to(bytes, 0, p)->0) ==> lexed(bytes, run_to(bytes, 0, p)->0) && blank(
            bytes,
            end_of(run_to(bytes, 0, p)->0),
            p,
        ),
        lex(bytes, p).0 is Some ==> p < lex(bytes, p).1,
        lex(bytes, p).0 matches Some(Ok(t)) ==> token_in(bytes, t) && t.range.end == lex(
            bytes,
            p,
        ).1,
    ensures
        run_to(bytes, 0, lex(bytes, p).1) == match lex(bytes, p).0 {
            Some(x) => Some(run_to(bytes, 0, p)->0.push(x)),
            None => run_to(bytes, 0, p),
        },
        all_tokens(run_to(bytes, 0, lex(bytes, p).1)->0) ==> lexed(
            bytes,
            run_to(bytes, 0, lex(bytes, p).1)->0,
        ) && blank(bytes, end_of(run_to(bytes, 0, lex(bytes, p).1)->0), lex(bytes, p).1),
{
    lemma_lex_blank(bytes, p);
    lemma_lex_exhausted(bytes, p);
    lemma_run_step(bytes, 0, p);
    let before = run_to(bytes, 0, p)->0;
    let q = lex(bytes, p).1;
    match lex(bytes, p).0 {
        None => {
            if all_tokens(before) {
                lemma_blank_join(bytes, end_of(before), p, q);
            }
        },
        Some(x) => {
            let items = before.push(x);
            assert(items.drop_last() =~= before);
            if all_tokens(items) {
                assert forall|i: int| 0 <= i < before.len() implies before[i] is Ok by {
                    assert(before[i] == items[i]);
                }
                assert(items[before.len() as int] == x);
                let t = x->Ok_0;
                lemma_blank_join(bytes, end_of(before), p, t.range.start as int);
                assert(blank(bytes, q, q));
            }
        },
    }
}

/// A blank stretch runs forward.
pub proof fn lemma_blank_bounds(bytes: Seq<u8>, a: int, b: int)
    requires
        blank(bytes, a, b),
    ensures
        a <= b,
    decreases b - a,
{
    if a < b {
        if comment_at(bytes, a) {
            match comment_end(bytes, a + 2) {
                None => {},
                Some(q) => {
                    lemma_blank_bounds(bytes, q, b);
                },
            }
        } else {
            lemma_blank_bounds(bytes, a + 1, b);
        }
    }
}

/// A lexer over a source text: the text and the offset it has reached.
#[derive(Debug)]
pub struct Lexer<'a> {
    source: &'a str,
    cursor: usize,
}

impl<'a> Lexer<'a> {
    /// The UTF-8 bytes of the source.
    pub closed spec fn bytes(&self) -> Seq<u8> {
        self.source.spec_bytes()
    }

    /// The byte offset that scanning has reached.
    pub closed spec fn position(&self) -> int {
        self.cursor as int
    }

    /// The source text.
    pub closed spec fn text(&self) -> &'a str {
        self.source
    }

    /// The items the lexer has handed out, in order: its run from the start
    /// of the source to the offset.
    pub closed spec fn items(&self) -> Seq<Result<Token, LexError>> {
        run_to(self.bytes(), 0, self.position())->0
    }

    /// The lexer's steps from the start land on its offset; where the items
    /// handed out are all tokens, they are the run that `lexed` describes,
    /// and nothing but white space and comments follows the last one.
    pub closed spec fn history_ok(&self) -> bool {
        &&& run_to(self.bytes(), 0, self.position()) is Some
        &&& all_tokens(self.items()) ==> lexed(self.bytes(), self.items()) && blank(
            self.bytes(),
            end_of(self.items()),
            self.position(),
        )
    }

    /// The offset lies within the source, on a character boundary.
    pub open spec fn sound(&self) -> bool {
        &&& 0 <= self.position() <= self.bytes().len() <= usize::MAX
        &&& valid_utf8(self.bytes())
        &&& is_char_boundary(self.bytes(), self.position())
    }

    /// The lexer is sound, and the items handed out so far read as a run of
    /// tokens.
    pub open spec fn wf(&self) -> bool {
        &&& self.sound()
        &&& self.history_ok()
    }

    /// What `history_ok` says of a lexer.
    pub proof fn lemma_history(&self)
        requires
            self.wf(),
        ensures
            run_to(self.bytes(), 0, self.position()) == Some(self.items()),
            all_tokens(self.items()) ==> lexed(self.bytes(), self.items()) && blank(
                self.bytes(),
                end_of(self.items()),
                self.position(),
            ),
    {
    }

    /// A lexer at the start of `source`.
    pub fn new(source: &'a str) -> (lexer: Self)
        ensures
            lexer.wf(),
            lexer.text() == source,
            lexer.bytes() == source.spec_bytes(),
            lexer.position() == 0,
            lexer.items() == Seq::<Result<Token, LexError>>::empty(),
    {
        assert(blank(source.spec_bytes(), 0, 0));
        proof {
            is_char_boundary_start_end_of_seq(source.spec_bytes());
        }
        let _ = source.as_bytes().len();
        let cursor: usize = 0;
        Self { source, cursor }
    }

    /// The source text.
    pub fn source(&self) -> (source: &'a str)
        ensures
            source == self.text(),
            source.spec_bytes() == self.bytes(),
    {
        self.source
    }

    /// The offset the lexer has reached.
    pub fn offset(&self) -> (r: usize)
        ensures
            r == self.position(),
    {
        self.cursor
    }

    /// The byte `N` places after the offset, if there is one.
    fn peek_byte<const N: usize>(&self) -> (r: Option<u8>)
        requires
            self.position() <= self.bytes().len() <= usize::MAX,
            N <= 1,
        ensures
            r == (if self.position() + N < self.bytes().len() {
                Some(self.bytes()[self.position() + N])
            } else {
                None
            }),
    {
        let bytes = self.source.as_bytes();
        if self.cursor < bytes.len() && N < bytes.len() - self.cursor {
            Some(bytes[self.cursor + N])
        } else {
            None
        }
    }

    /// The byte at the offset, if any, and the offset moved past it.
    fn next_byte(&mut self) -> (r: Option<u8>)
        requires
            old(self).position() <= old(self).bytes().len(),
        ensures
            final(self).source == old(self).source,
            old(self).position() < old(self).bytes().len() ==> r == Some(
                old(self).bytes()[old(self).position()],
            ) && final(self).position() == old(self).position() + 1,
            old(self).position() >= old(self).bytes().len() ==> r is None && final(self).position()
                == old(self).position(),
    {
        let bytes = self.source.as_bytes();
        if self.cursor < bytes.len() {
            let byte = bytes[self.cursor];
            self.cursor = self.cursor + 1;
            Some(byte)
        } else {
            None
        }
    }
}


/// `is_digit` on a byte.
fn digit(b: u8) -> (r: bool)
    ensures
        r == is_digit(b),
{
    '0' as u8 <= b && b <= '9' as u8
}

/// `is_alpha` on a byte.
fn alpha(b: u8) -> (r: bool)
    ensures
        r == is_alpha(b),
{
    ('a' as u8 <= b && b <= 'z' as u8) || ('A' as u8 <= b && b <= 'Z' as u8)
}

/// `is_space` on a byte.
fn space(b: u8) -> (r: bool)
    ensures
        r == is_space(b),
{
    b == ' ' as u8 || b == '\t' as u8 || b == '\n' as u8 || b == 0x0c || b == '\r' as u8
}

/// `single_kind` on a byte.
fn single(b: u8) -> (r: Option<TokenKind>)
    ensures
        r == single_kind(b),
{
    if b == '(' as u8 {
        Some(TokenKind::LParen)
    } else if b == ')' as u8 {
        Some(TokenKind::RParen)
    } else if b == '{' as u8 {
        Some(TokenKind::LBrace)
    } else if b == '}' as u8 {
        Some(TokenKind::RBrace)
    } else if b == ';' as u8 {
        Some(TokenKind::Semicolon)
    } else if b == ',' as u8 {
        Some(TokenKind::Comma)
    } else if b == '.' as u8 {
        Some(TokenKind::Dot)
    } else if b == '+' as u8 {
        Some(TokenKind::Plus)
    } else if b == '-' as u8 {
        Some(TokenKind::Minus)
    } else if b == '*' as u8 {
        Some(TokenKind::Star)
    } else {
        None
    }
}

/// `equal_pair` on a byte.
fn pair(b: u8) -> (r: Option<(TokenKind, TokenKind)>)
    ensures
        r == equal_pair(b),
{
    if b == '!' as u8 {
        Some((TokenKind::Bang, TokenKind::BangEqual))
    } else if b == '=' as u8 {
        Some((TokenKind::Equal, TokenKind::EqualEqual))
    } else if b == '<' as u8 {
        Some((TokenKind::Less, TokenKind::LessEqual))
    } else if b == '>' as u8 {
        Some((TokenKind::Greater, TokenKind::GreaterEqual))
    } else {
        None
    }
}

impl<'a> Lexer<'a> {
    /// Moves the offset over a run of digits.
    fn skip_digits(&mut self)
        requires
            old(self).sound(),
        ensures
            final(self).sound(),
            final(self).source == old(self).source,
            final(self).position() == digits_end(old(self).bytes(), old(self).position()),
            final(self).position() >= old(self).position(),
    {
        let ghost bytes = old(self).bytes();
        let ghost p0 = old(self).position();
        let b = self.source.as_bytes();
        while self.cursor < b.len() && digit(b[self.cursor])
            invariant
                self.sound(),
                self.source == old(self).source,
                self.bytes() == bytes,
                b@ == bytes,
                p0 <= self.position(),
                digits_end(bytes, p0) == digits_end(bytes, self.position()),
            decreases bytes.len() - self.position(),
        {
            proof {
                lemma_ascii_boundary(bytes, self.position());
            }
            self.cursor = self.cursor + 1;
        }
    }

    /// Moves the offset over a run of XID_Continue characters.
    fn skip_ident(&mut self)
        requires
            old(self).sound(),
        ensures
            final(self).sound(),
            final(self).source == old(self).source,
            final(self).position() == ident_end(old(self).bytes(), old(self).position()),
            final(self).position() >= old(self).position(),
    {
        let ghost bytes = old(self).bytes();
        let ghost p0 = old(self).position();
        let len = self.source.as_bytes().len();
        let mut go = true;
        while go
            invariant
                self.sound(),
                self.source == old(self).source,
                self.bytes() == bytes,
                len == bytes.len(),
                p0 <= self.position(),
                ident_end(bytes, p0) == if go {
                    ident_end(bytes, self.position())
                } else {
                    self.position()
                },
            decreases bytes.len() - self.position() + if go { 1int } else { 0int },
        {
            if self.cursor >= len {
                go = false;
            } else {
                let (c, w) = decode_at(self.source, self.cursor);
                if !is_xid_continue(c) {
                    go = false;
                } else {
                    self.cursor = self.cursor + w;
                }
            }
        }
    }

    /// Scans the token whose first byte, `byte` at `start`, has just been
    /// taken; white space and comments are handled by the caller.
    fn scan_token(&mut self, start: usize, byte: u8) -> (r: Result<Token, LexError>)
        requires
            start < old(self).bytes().len() <= usize::MAX,
            is_char_boundary(old(self).bytes(), start as int),
            old(self).position() == start + 1,
            old(self).bytes()[start as int] == byte,
        ensures
            final(self).sound(),
            final(self).source == old(self).source,
            (r, final(self).position()) == scan(old(self).bytes(), start as int),
            final(self).position() > start,
            r matches Ok(t) ==> (t.kind == TokenKind::String ==> t.range.end >= t.range.start + 2
                && old(self).bytes()[t.range.start as int] == '"' as u8 && old(self).bytes()[t.range.end
                - 1] == '"' as u8),
    {
        let ghost bytes = old(self).bytes();
        proof {
            if is_ascii_byte(byte) {
                lemma_ascii_boundary(bytes, start as int);
            }
        }
        if let Some(kind) = single(byte) {
            let range = Range { start, end: self.cursor };
            return Ok(Token { kind, range });
        }
        if byte == '/' as u8 {
            let range = Range { start, end: self.cursor };
            return Ok(Token { kind: TokenKind::Slash, range });
        }
        if let Some((short, long)) = pair(byte) {
            let equal = match self.peek_byte::<0>() {
                Some(next) => next == '=' as u8,
                None => false,
            };
            if equal {
                proof {
                    lemma_ascii_boundary(bytes, start + 1);
                }
                self.cursor = self.cursor + 1;
                let range = Range { start, end: self.cursor };
                return Ok(Token { kind: long, range });
            } else {
                let range = Range { start, end: self.cursor };
                return Ok(Token { kind: short, range });
            }
        }
        if alpha(byte) || byte == '_' as u8 {
            self.skip_ident();
            let lexeme = crate::text::slice(self.source, start, self.cursor);
            let kind = match Keyword::from_lexeme(lexeme) {
                Some(keyword) => TokenKind::Keyword(keyword),
                None => TokenKind::Identifier,
            };
            let range = Range { start, end: self.cursor };
            return Ok(Token { kind, range });
        }
        if byte >= 0x80 {
            let (c, w) = decode_at(self.source, start);
            self.cursor = start + w;
            if !is_xid_start(c) {
                let range = Range { start, end: self.cursor };
                return Err(LexError::UnexpectedCharacter { char: c, range });
            }
            self.skip_ident();
            let lexeme = crate::text::slice(self.source, start, self.cursor);
            let kind = match Keyword::from_lexeme(lexeme) {
                Some(keyword) => TokenKind::Keyword(keyword),
                None => TokenKind::Identifier,
            };
            let range = Range { start, end: self.cursor };
            return Ok(Token { kind, range });
        }
        if byte == '"' as u8 {
            if self.skip_string() {
                let range = Range { start, end: self.cursor };
                return Ok(Token { kind: TokenKind::String, range });
            } else {
                return Err(LexError::UnterminatedString);
            }
        }
        if digit(byte) {
            self.skip_digits();
            let dot = match self.peek_byte::<0>() {
                Some(next) => next == '.' as u8,
                None => false,
            };
            let fraction = dot && match self.peek_byte::<1>() {
                Some(next) => digit(next),
                None => false,
            };
            if fraction {
                proof {
                    lemma_ascii_boundary(bytes, self.position());
                    lemma_ascii_boundary(bytes, self.position() + 1);
                }
                self.cursor = self.cursor + 2;
                self.skip_digits();
            }
            let range = Range { start, end: self.cursor };
            return Ok(Token { kind: TokenKind::Number, range });
        }
        let range = Range { start, end: self.cursor };
        Err(LexError::UnexpectedCharacter { char: byte as char, range })
    }

    /// Moves the offset over the body and the closing quote of a string
    /// literal; `false` where the input ends first.
    fn skip_string(&mut self) -> (closed: bool)
        requires
            old(self).position() <= old(self).bytes().len() <= usize::MAX,
        ensures
            final(self).sound(),
            final(self).source == old(self).source,
            closed ==> string_end(old(self).bytes(), old(self).position()) == Some(
                final(self).position(),
            ) && final(self).position() > old(self).position() && old(self).bytes()[final(self).position() - 1]
                == '"' as u8,
            !closed ==> string_end(old(self).bytes(), old(self).position()) is None
                && final(self).position() == old(self).bytes().len(),
            final(self).position() >= old(self).position(),
    {
        let ghost bytes = old(self).bytes();
        let ghost p0 = old(self).position();
        let mut state: u8 = 0;
        while state == 0
            invariant
                self.source == old(self).source,
                self.bytes() == bytes,
                self.position() <= bytes.len() <= usize::MAX,
                p0 <= self.position(),
                state <= 2,
                state == 0 ==> string_end(bytes, p0) == string_end(bytes, self.position()),
                state == 1 ==> string_end(bytes, p0) == Some(self.position()) && self.sound()
                    && self.position() > p0 && bytes[self.position() - 1] == '"' as u8,
                state == 2 ==> string_end(bytes, p0) is None && self.position() == bytes.len(),
            decreases bytes.len() - self.position() + if state == 0 { 1int } else { 0int },
        {
            let at = self.cursor;
            match self.next_byte() {
                None => {
                    state = 2;
                },
                Some(b) => {
                    if b == '\\' as u8 {
                        if self.next_byte().is_none() {
                            state = 2;
                        }
                    } else if b == '"' as u8 {
                        proof {
                            lemma_ascii_boundary(bytes, at as int);
                        }
                        state = 1;
                    }
                },
            }
        }
        proof {
            is_char_boundary_start_end_of_seq(bytes);
        }
        state == 1
    }

    /// Moves the offset past the first line feed; `false` where the input
    /// ends first.
    fn skip_comment(&mut self) -> (found: bool)
        requires
            old(self).position() <= old(self).bytes().len() <= usize::MAX,
        ensures
            final(self).sound(),
            final(self).source == old(self).source,
            found ==> comment_end(old(self).bytes(), old(self).position()) == Some(
                final(self).position(),
            ),
            !found ==> comment_end(old(self).bytes(), old(self).position()) is None
                && final(self).position() == old(self).bytes().len(),
            final(self).position() >= old(self).position(),
    {
        let ghost bytes = old(self).bytes();
        let ghost p0 = old(self).position();
        let mut state: u8 = 0;
        while state == 0
            invariant
                self.source == old(self).source,
                self.bytes() == bytes,
                self.position() <= bytes.len() <= usize::MAX,
                p0 <= self.position(),
                state <= 2,
                state == 0 ==> comment_end(bytes, p0) == comment_end(bytes, self.position()),
                state == 1 ==> comment_end(bytes, p0) == Some(self.position()) && self.sound(),
                state == 2 ==> comment_end(bytes, p0) is None && self.position() == bytes.len(),
            decreases bytes.len() - self.position() + if state == 0 { 1int } else { 0int },
        {
            let at = self.cursor;
            match self.next_byte() {
                None => {
                    state = 2;
                },
                Some(b) => {
                    if b == '\n' as u8 {
                        proof {
                            lemma_ascii_boundary(bytes, at as int);
                        }
                        state = 1;
                    }
                },
            }
        }
        proof {
            is_char_boundary_start_end_of_seq(bytes);
        }
        state == 1
    }

    /// Moves the offset over white space and comments; `false` where the
    /// input ends on the way, with nothing left to scan.
    fn skip_trivia(&mut self) -> (more: bool)
        requires
            old(self).sound(),
        ensures
            final(self).sound(),
            final(self).source == old(self).source,
            more ==> final(self).position() < final(self).bytes().len() && !comment_at(
                final(self).bytes(),
                final(self).position(),
            ) && !is_space(final(self).bytes()[final(self).position()]) && lex(
                old(self).bytes(),
                old(self).position(),
            ) == lex(final(self).bytes(), final(self).position()),
            !more ==> lex(old(self).bytes(), old(self).position()) == (
                None::<Result<Token, LexError>>,
                final(self).position(),
            ) && final(self).position() == final(self).bytes().len(),
            final(self).position() >= old(self).position(),
    {
        let ghost bytes = old(self).bytes();
        let ghost goal = lex(bytes, old(self).position());
        let b = self.source.as_bytes();
        let mut state: u8 = 0;
        while state == 0
            invariant
                self.sound(),
                self.source == old(self).source,
                self.bytes() == bytes,
                b@ == bytes,
                state <= 2,
                state == 0 || state == 1 ==> lex(bytes, self.position()) == goal,
                state == 1 ==> self.position() < bytes.len() && !comment_at(
                    bytes,
                    self.position(),
                ) && !is_space(bytes[self.position()]),
                state == 2 ==> goal == (None::<Result<Token, LexError>>, self.position())
                    && self.position() == bytes.len(),
                self.position() >= old(self).position(),
            decreases bytes.len() - self.position() + if state == 0 { 1int } else { 0int },
        {
            let start = self.cursor;
            if start >= b.len() {
                state = 2;
            } else {
                let byte = b[start];
                let slash = byte == '/' as u8 && start + 1 < b.len() && b[start + 1] == '/' as u8;
                if slash {
                    self.cursor = start + 2;
                    proof {
                        lemma_comment_end_bounds(bytes, start + 2);
                    }
                    if !self.skip_comment() {
                        state = 2;
                    }
                } else if space(byte) {
                    proof {
                        lemma_ascii_boundary(bytes, start as int);
                    }
                    self.cursor = start + 1;
                } else {
                    state = 1;
                }
            }
        }
        state == 1
    }

    /// The next token or lexical error, after white space and comments; `None`
    /// once the input is used up.
    #[verifier::spinoff_prover]
    #[verifier::rlimit(30)]
    pub fn next(&mut self) -> (r: Option<Result<Token, LexError>>)
        requires
            old(self).wf(),
        ensures
            final(self).wf(),
            final(self).text() == old(self).text(),
            final(self).bytes() == old(self).bytes(),
            (r, final(self).position()) == lex(old(self).bytes(), old(self).position()),
            r is None ==> final(self).position() == final(self).bytes().len(),
            r is Some ==> final(self).position() > old(self).position(),
            r matches Some(Ok(t)) ==> old(self).position() <= t.range.start < t.range.end
                == final(self).position() && is_char_boundary(
                old(self).bytes(),
                t.range.start as int,
            ) && (t.kind == TokenKind::String ==> t.range.end >= t.range.start + 2
                && old(self).bytes()[t.range.start as int] == '"' as u8 && old(self).bytes()[t.range.end
                - 1] == '"' as u8),
            r matches Some(x) ==> final(self).items() == old(self).items().push(x),
            r is None ==> final(self).items() == old(self).items(),
            r is None ==> blank(old(self).bytes(), old(self).position(), old(self).bytes().len() as int),
            old(self).position() == old(self).bytes().len() ==> *final(self) == *old(self),
    {
        if !self.skip_trivia() {
            proof {
                lemma_lex_blank(self.bytes(), old(self).position());
                lemma_history_step(self.bytes(), old(self).position());
            }
            return None;
        }
        let start = self.cursor;
        let byte = self.source.as_bytes()[start];
        self.cursor = start + 1;
        let token = self.scan_token(start, byte);
        proof {
            assert((Some(token), self.position()) == lex(old(self).bytes(), old(self).position()));
            lemma_history_step(self.bytes(), old(self).position());
        }
        Some(token)
    }
}


/// Whether `b` is ASCII white space, as Rust's `u8::is_ascii_whitespace`
/// has it: space, horizontal tab, line feed, form feed, carriage return.
pub open spec fn ascii_whitespace(b: u8) -> bool {
    b == 0x20 || b == 0x09 || b == 0x0a || b == 0x0c || b == 0x0d
}

/// White space between tokens does not matter: from a white-space byte the
/// lexer gives the same item, and stops at the same place, as from the
/// byte after it.
pub proof fn lemma_lex_skips_whitespace(bytes: Seq<u8>, p: int)
    requires
        0 <= p < bytes.len(),
        ascii_whitespace(bytes[p]),
    ensures
        lex(bytes, p) == lex(bytes, p + 1),
{
}

/// The lexer skips nothing but white space and comments: from any other
/// byte it gives an item, and a token it gives there starts at that byte.
pub proof fn lemma_lex_skips_only_blanks(bytes: Seq<u8>, p: int)
    requires
        0 <= p < bytes.len() <= usize::MAX,
        !ascii_whitespace(bytes[p]),
        !(bytes[p] == '/' as u8 && p + 1 < bytes.len() && bytes[p + 1] == '/' as u8),
    ensures
        lex(bytes, p).0 is Some,
        lex(bytes, p).0 matches Some(Ok(t)) ==> t.range.start == p,
{
}

/// The text that every token of `kind` has, for the kinds that are always
/// written the same way: punctuation, operators and keywords.
pub open spec fn kind_spelling(kind: TokenKind) -> Option<Seq<u8>> {
    match kind {
        TokenKind::LParen => Some(seq!['(' as u8]),
        TokenKind::RParen => Some(seq![')' as u8]),
        TokenKind::LBrace => Some(seq!['{' as u8]),
        TokenKind::RBrace => Some(seq!['}' as u8]),
        TokenKind::Semicolon => Some(seq![';' as u8]),
        TokenKind::Comma => Some(seq![',' as u8]),
        TokenKind::Dot => Some(seq!['.' as u8]),
        TokenKind::Plus => Some(seq!['+' as u8]),
        TokenKind::Minus => Some(seq!['-' as u8]),
        TokenKind::Star => Some(seq!['*' as u8]),
        TokenKind::Slash => Some(seq!['/' as u8]),
        TokenKind::Bang => Some(seq!['!' as u8]),
        TokenKind::BangEqual => Some(seq!['!' as u8, '=' as u8]),
        TokenKind::Equal => Some(seq!['=' as u8]),
        TokenKind::EqualEqual => Some(seq!['=' as u8, '=' as u8]),
        TokenKind::Less => Some(seq!['<' as u8]),
        TokenKind::LessEqual => Some(seq!['<' as u8, '=' as u8]),
        TokenKind::Greater => Some(seq!['>' as u8]),
        TokenKind::GreaterEqual => Some(seq!['>' as u8, '=' as u8]),
        TokenKind::Keyword(k) => Some(k.spelling()),
        _ => None,
    }
}

/// A run of identifier characters from `q` ends at `q` or after it, and
/// not past the input unless it ends right where it starts.
pub proof fn lemma_ident_end_bounds(bytes: Seq<u8>, q: int)
    requires
        0 <= q,
    ensures
        q <= ident_end(bytes, q),
        ident_end(bytes, q) <= bytes.len() || ident_end(bytes, q) == q,
    decreases bytes.len() - q,
{
    if 0 <= q < bytes.len() && xid_continue(char_at(bytes, q)) && q + width_at(bytes, q)
        <= bytes.len() {
        lemma_ident_end_bounds(bytes, q + width_at(bytes, q));
    }
}

/// A token scanned from `p` whose kind is always written one way is
/// written that way in the source.
pub proof fn lemma_scan_spelling(bytes: Seq<u8>, p: int)
    requires
        0 <= p < bytes.len() <= isize::MAX,
    ensures
        scan(bytes, p).0 matches Ok(t) ==> (kind_spelling(t.kind) matches Some(s) ==> bytes.subrange(
            t.range.start as int,
            t.range.end as int,
        ) == s),
{
    let b = bytes[p];
    if single_kind(b) is Some {
        assert(bytes.subrange(p, p + 1) =~= seq![b]);
    } else if b == '/' as u8 {
        assert(bytes.subrange(p, p + 1) =~= seq![b]);
    } else if let Some((short, long)) = equal_pair(b) {
        if p + 1 < bytes.len() && bytes[p + 1] == '=' as u8 {
            assert(bytes.subrange(p, p + 2) =~= seq![b, '=' as u8]);
        } else {
            assert(bytes.subrange(p, p + 1) =~= seq![b]);
        }
    } else if is_alpha(b) || b == '_' as u8 {
        let e = ident_end(bytes, p + 1);
        lemma_ident_end_bounds(bytes, p + 1);
        match keyword_of(bytes.subrange(p, e)) {
            Some(k) => {
                lemma_keyword_spelling(k, bytes.subrange(p, e));
            },
            None => {},
        }
    } else if b >= 0x80 {
        let w = width_at(bytes, p);
        if xid_start(char_at(bytes, p)) {
            let e = ident_end(bytes, p + w);
            lemma_ident_end_bounds(bytes, p + w);
            match keyword_of(bytes.subrange(p, e)) {
                Some(k) => {
                    lemma_keyword_spelling(k, bytes.subrange(p, e));
                },
                None => {},
            }
        }
    }
}

/// A token that the lexer gives whose kind is always written one way is
/// written that way in the source: an operator or punctuation by its
/// symbol, a keyword by its word.
pub proof fn lemma_lex_spelling(bytes: Seq<u8>, p: int)
    requires
        0 <= p <= bytes.len() <= isize::MAX,
    ensures
        lex(bytes, p).0 matches Some(Ok(t)) ==> (kind_spelling(t.kind) matches Some(s)
            ==> bytes.subrange(t.range.start as int, t.range.end as int) == s),
    decreases bytes.len() - p,
{
    if p < bytes.len() {
        if comment_at(bytes, p) {
            lemma_comment_end_bounds(bytes, p + 2);
            match comment_end(bytes, p + 2) {
                None => {},
                Some(q) => {
                    lemma_lex_spelling(bytes, q);
                },
            }
        } else if is_space(bytes[p]) {
            lemma_lex_spelling(bytes, p + 1);
        } else {
            lemma_scan_spelling(bytes, p);
        }
    }
}


/// How many backslashes stand right before offset `q`, counting back no
/// further than `lo`.
pub open spec fn backslashes_before(bytes: Seq<u8>, lo: int, q: int) -> nat
    decreases q - lo,
{
    if q <= lo || bytes[q - 1] != '\\' as u8 {
        0
    } else {
        1 + backslashes_before(bytes, lo, q - 1)
    }
}

/// Whether the byte at `q` of a string body that starts at `lo` is escaped:
/// an odd run of backslashes stands right before it.
pub open spec fn escaped(bytes: Seq<u8>, lo: int, q: int) -> bool {
    backslashes_before(bytes, lo, q) % 2 == 1
}

/// Scanning a string body from `k`, where no backslash is pending and every
/// quote met so far was escaped: it ends just after the first quote that is
/// not escaped, or finds none.
proof fn lemma_string_end_escapes(bytes: Seq<u8>, lo: int, k: int)
    requires
        0 <= lo <= k,
        backslashes_before(bytes, lo, k) % 2 == 0,
        forall|q: int| lo <= q < k && bytes[q] == '"' as u8 ==> escaped(bytes, lo, q),
    ensures
        match string_end(bytes, k) {
            Some(e) => {
                &&& k < e <= bytes.len()
                &&& bytes[e - 1] == '"' as u8
                &&& !escaped(bytes, lo, e - 1)
                &&& forall|q: int| lo <= q < e - 1 && bytes[q] == '"' as u8 ==> escaped(bytes, lo, q)
            },
            None => forall|q: int|
                lo <= q < bytes.len() && bytes[q] == '"' as u8 ==> escaped(bytes, lo, q),
        },
    decreases bytes.len() - k,
{
    if k < bytes.len() {
        if bytes[k] == '\\' as u8 {
            if k + 1 < bytes.len() {
                assert(backslashes_before(bytes, lo, k + 1) == 1 + backslashes_before(bytes, lo, k));
                if bytes[k + 1] == '\\' as u8 {
                    assert(backslashes_before(bytes, lo, k + 2) == 1 + backslashes_before(
                        bytes,
                        lo,
                        k + 1,
                    ));
                } else {
                    assert(backslashes_before(bytes, lo, k + 2) == 0);
                }
                assert forall|q: int| lo <= q < k + 2 && bytes[q] == '"' as u8 implies escaped(
                    bytes,
                    lo,
                    q,
                ) by {
                    if q == k + 1 {
                        assert(backslashes_before(bytes, lo, k + 1) % 2 == 1);
                    }
                }
                lemma_string_end_escapes(bytes, lo, k + 2);
            }
        } else if bytes[k] != '"' as u8 {
            assert(backslashes_before(bytes, lo, k + 1) == 0);
            lemma_string_end_escapes(bytes, lo, k + 1);
        }
    }
}

/// A string literal runs from its opening quote to the first quote after it
/// that no backslash escapes: a backslash makes the byte after it part of
/// the body, so every quote inside the literal is escaped, and the closing
/// one is not. Where no such quote follows, the string is unterminated.
pub proof fn lemma_lex_string(bytes: Seq<u8>, p: int)
    requires
        0 <= p < bytes.len() <= usize::MAX,
        bytes[p] == '"' as u8,
    ensures
        match lex(bytes, p).0 {
            Some(Ok(t)) => {
                &&& t.kind == TokenKind::String
                &&& t.range.start == p
                &&& p + 2 <= t.range.end <= bytes.len()
                &&& bytes[t.range.end - 1] == '"' as u8
                &&& !escaped(bytes, p + 1, t.range.end - 1)
                &&& forall|q: int|
                    p + 1 <= q < t.range.end - 1 && bytes[q] == '"' as u8 ==> escaped(bytes, p + 1, q)
            },
            Some(Err(error)) => {
                &&& error == LexError::UnterminatedString
                &&& forall|q: int|
                    p + 1 <= q < bytes.len() && bytes[q] == '"' as u8 ==> escaped(bytes, p + 1, q)
            },
            None => false,
        },
{
    lemma_string_end_escapes(bytes, p + 1, p + 1);
}


/// A run of digits from `q` ends at `q` or after it, and not past the
/// input unless it ends right where it starts.
pub proof fn lemma_digits_end_bounds(bytes: Seq<u8>, q: int)
    requires
        0 <= q,
    ensures
        q <= digits_end(bytes, q),
        digits_end(bytes, q) <= bytes.len() || digits_end(bytes, q) == q,
    decreases bytes.len() - q,
{
    if 0 <= q < bytes.len() && is_digit(bytes[q]) {
        lemma_digits_end_bounds(bytes, q + 1);
    }
}

/// No two kinds that are always written one way are written the same way.
pub proof fn lemma_kind_spelling_distinct(a: TokenKind, b: TokenKind)
    requires
        kind_spelling(a) is Some,
        kind_spelling(a) == kind_spelling(b),
    ensures
        a == b,
{
    match a {
        TokenKind::Keyword(ka) => {
            match b {
                TokenKind::Keyword(kb) => {
                    lemma_keyword_spelling(ka, ka.spelling());
                    lemma_keyword_spelling(kb, kb.spelling());
                    assert(ka.spelling() == kb.spelling());
                },
                _ => {
                    assert(ka.spelling()[0] != kind_spelling(b)->0[0]);
                },
            }
        },
        _ => {
            match b {
                TokenKind::Keyword(kb) => {
                    assert(kb.spelling()[0] != kind_spelling(a)->0[0]);
                },
                _ => {
                    let sa = kind_spelling(a)->0;
                    let sb = kind_spelling(b)->0;
                    assert(sa.len() == sb.len() && sa[0] == sb[0]);
                    if sa.len() > 1 {
                        assert(sa[1] == sb[1]);
                    }
                },
            }
        },
    }
}

/// A token scanned from `p` that lies in the source and is written as a
/// kind that is always written one way is of that kind.
proof fn lemma_scan_kind_from_text(bytes: Seq<u8>, p: int, k: TokenKind)
    requires
        0 <= p < bytes.len() <= isize::MAX,
        kind_spelling(k) is Some,
    ensures
        scan(bytes, p).0 matches Ok(t) ==> (t.range.end <= bytes.len() && bytes.subrange(
            t.range.start as int,
            t.range.end as int,
        ) == kind_spelling(k)->0 ==> t.kind == k),
{
    lemma_scan_spelling(bytes, p);
    let spelled = kind_spelling(k)->0;
    let b = bytes[p];
    if let Ok(t) = scan(bytes, p).0 {
        let text = bytes.subrange(t.range.start as int, t.range.end as int);
        if t.range.end <= bytes.len() && text == spelled {
            if kind_spelling(t.kind) is Some {
                lemma_kind_spelling_distinct(k, t.kind);
            } else {
                if single_kind(b) is Some || b == '/' as u8 || equal_pair(b) is Some {
                } else if is_alpha(b) || b == '_' as u8 {
                    lemma_ident_end_bounds(bytes, p + 1);
                    assert(text[0] == b);
                    if let TokenKind::Keyword(kk) = k {
                        lemma_keyword_spelling(kk, kk.spelling());
                    }
                } else if b >= 0x80 {
                    let w = width_at(bytes, p);
                    lemma_ident_end_bounds(bytes, p + w);
                    assert(text[0] == b);
                    if let TokenKind::Keyword(kk) = k {
                        lemma_keyword_spelling(kk, kk.spelling());
                    }
                } else if b == '"' as u8 {
                    lemma_string_end_escapes(bytes, p + 1, p + 1);
                    assert(text[0] == b);
                } else if is_digit(b) {
                    lemma_digits_end_bounds(bytes, p + 1);
                    lemma_digits_end_bounds(bytes, digits_end(bytes, p + 1) + 2);
                    assert(text[0] == b);
                }
            }
        }
    }
}

/// A token that the lexer gives, lying in the source, that is written as a
/// kind that is always written one way is of that kind: `>=` is the
/// greater-or-equal token, `false` the keyword `false`, and so on.
pub proof fn lemma_lex_kind_from_text(bytes: Seq<u8>, p: int, k: TokenKind)
    requires
        0 <= p <= bytes.len() <= isize::MAX,
        kind_spelling(k) is Some,
    ensures
        lex(bytes, p).0 matches Some(Ok(t)) ==> (t.range.end <= bytes.len() && bytes.subrange(
            t.range.start as int,
            t.range.end as int,
        ) == kind_spelling(k)->0 ==> t.kind == k),
    decreases bytes.len() - p,
{
    if p < bytes.len() {
        if comment_at(bytes, p) {
            lemma_comment_end_bounds(bytes, p + 2);
            match comment_end(bytes, p + 2) {
                None => {},
                Some(q) => {
                    lemma_lex_kind_from_text(bytes, q, k);
                },
            }
        } else if is_space(bytes[p]) {
            lemma_lex_kind_from_text(bytes, p + 1, k);
        } else {
            lemma_scan_kind_from_text(bytes, p, k);
        }
    }
}

} // verus!

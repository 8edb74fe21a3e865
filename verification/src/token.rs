use crate::range::Range;
use vstd::prelude::*;
use vstd::string::StringSliceAdditionalSpecFns;

verus! {

/// A lexeme of the source: its kind and its byte span.
#[derive(Debug, Clone, Copy, PartialEq, Eq, Structural)]
pub struct Token {
    pub range: Range,
    pub kind: TokenKind,
}

/// The kinds of lexemes that the lexer produces.
#[derive(Debug, Clone, Copy, PartialEq, Eq, Structural)]
pub enum TokenKind {
    LParen,
    RParen,
    LBrace,
    RBrace,
    Semicolon,
    Comma,
    Dot,
    Plus,
    Minus,
    Star,
    Slash,
    Bang,
    BangEqual,
    Equal,
    EqualEqual,
    Less,
    LessEqual,
    Greater,
    GreaterEqual,
    Identifier,
    String,
    Number,
    Keyword(Keyword),
}

/// The reserved words of the language.
#[derive(Debug, Clone, Copy, PartialEq, Eq, Structural)]
pub enum Keyword {
    Class,
    Super,
    Fun,
    This,
    Var,
    While,
    For,
    If,
    Else,
    And,
    Or,
    True,
    False,
    Nil,
    Print,
    Return,
}

/// The keyword whose spelling is exactly the given UTF-8 bytes, if any.
pub open spec fn keyword_of(lexeme: Seq<u8>) -> Option<Keyword> {
    if lexeme == seq!['c' as u8, 'l' as u8, 'a' as u8, 's' as u8, 's' as u8] {
        Some(Keyword::Class)
    } else if lexeme == seq!['s' as u8, 'u' as u8, 'p' as u8, 'e' as u8, 'r' as u8] {
        Some(Keyword::Super)
    } else if lexeme == seq!['f' as u8, 'u' as u8, 'n' as u8] {
        Some(Keyword::Fun)
    } else if lexeme == seq!['t' as u8, 'h' as u8, 'i' as u8, 's' as u8] {
        Some(Keyword::This)
    } else if lexeme == seq!['v' as u8, 'a' as u8, 'r' as u8] {
        Some(Keyword::Var)
    } else if lexeme == seq!['w' as u8, 'h' as u8, 'i' as u8, 'l' as u8, 'e' as u8] {
        Some(Keyword::While)
    } else if lexeme == seq!['f' as u8, 'o' as u8, 'r' as u8] {
        Some(Keyword::For)
    } else if lexeme == seq!['i' as u8, 'f' as u8] {
        Some(Keyword::If)
    } else if lexeme == seq!['e' as u8, 'l' as u8, 's' as u8, 'e' as u8] {
        Some(Keyword::Else)
    } else if lexeme == seq!['a' as u8, 'n' as u8, 'd' as u8] {
        Some(Keyword::And)
    } else if lexeme == seq!['o' as u8, 'r' as u8] {
        Some(Keyword::Or)
    } else if lexeme == seq!['t' as u8, 'r' as u8, 'u' as u8, 'e' as u8] {
        Some(Keyword::True)
    } else if lexeme == seq!['f' as u8, 'a' as u8, 'l' as u8, 's' as u8, 'e' as u8] {
        Some(Keyword::False)
    } else if lexeme == seq!['n' as u8, 'i' as u8, 'l' as u8] {
        Some(Keyword::Nil)
    } else if lexeme == seq!['p' as u8, 'r' as u8, 'i' as u8, 'n' as u8, 't' as u8] {
        Some(Keyword::Print)
    } else if lexeme == seq!['r' as u8, 'e' as u8, 't' as u8, 'u' as u8, 'r' as u8, 'n' as u8] {
        Some(Keyword::Return)
    } else {
        None
    }
}

/// Whether `bytes` spells `word`.
fn spells(bytes: &[u8], word: &[u8]) -> (r: bool)
    ensures
        r == (bytes@ == word@),
{
    if bytes.len() != word.len() {
        return false;
    }
    let mut i: usize = 0;
    while i < bytes.len()
        invariant
            bytes@.len() == word@.len(),
            i <= bytes@.len(),
            forall|j: int| 0 <= j < i ==> bytes@[j] == word@[j],
        decreases bytes@.len() - i,
    {
        if bytes[i] != word[i] {
            return false;
        }
        i = i + 1;
    }
    assert(bytes@ =~= word@);
    true
}

impl Keyword {
    /// The keyword spelled by `lexeme`, or `None` where it spells none.
    pub fn from_lexeme(lexeme: &str) -> (keyword: Option<Self>)
        ensures
            keyword == keyword_of(lexeme.spec_bytes()),
    {
        let b = lexeme.as_bytes();
        if spells(b, &['c' as u8, 'l' as u8, 'a' as u8, 's' as u8, 's' as u8]) {
            Some(Keyword::Class)
        } else if spells(b, &['s' as u8, 'u' as u8, 'p' as u8, 'e' as u8, 'r' as u8]) {
            Some(Keyword::Super)
        } else if spells(b, &['f' as u8, 'u' as u8, 'n' as u8]) {
            Some(Keyword::Fun)
        } else if spells(b, &['t' as u8, 'h' as u8, 'i' as u8, 's' as u8]) {
            Some(Keyword::This)
        } else if spells(b, &['v' as u8, 'a' as u8, 'r' as u8]) {
            Some(Keyword::Var)
        } else if spells(b, &['w' as u8, 'h' as u8, 'i' as u8, 'l' as u8, 'e' as u8]) {
            Some(Keyword::While)
        } else if spells(b, &['f' as u8, 'o' as u8, 'r' as u8]) {
            Some(Keyword::For)
        } else if spells(b, &['i' as u8, 'f' as u8]) {
            Some(Keyword::If)
        } else if spells(b, &['e' as u8, 'l' as u8, 's' as u8, 'e' as u8]) {
            Some(Keyword::Else)
        } else if spells(b, &['a' as u8, 'n' as u8, 'd' as u8]) {
            Some(Keyword::And)
        } else if spells(b, &['o' as u8, 'r' as u8]) {
            Some(Keyword::Or)
        } else if spells(b, &['t' as u8, 'r' as u8, 'u' as u8, 'e' as u8]) {
            Some(Keyword::True)
        } else if spells(b, &['f' as u8, 'a' as u8, 'l' as u8, 's' as u8, 'e' as u8]) {
            Some(Keyword::False)
        } else if spells(b, &['n' as u8, 'i' as u8, 'l' as u8]) {
            Some(Keyword::Nil)
        } else if spells(b, &['p' as u8, 'r' as u8, 'i' as u8, 'n' as u8, 't' as u8]) {
            Some(Keyword::Print)
        } else if spells(b, &['r' as u8, 'e' as u8, 't' as u8, 'u' as u8, 'r' as u8, 'n' as u8]) {
            Some(Keyword::Return)
        } else {
            None
        }
    }
}

impl Keyword {
    /// How the keyword is spelled, as UTF-8 bytes.
    pub open spec fn spelling(self) -> Seq<u8> {
        match self {
            Keyword::Class => seq!['c' as u8, 'l' as u8, 'a' as u8, 's' as u8, 's' as u8],
            Keyword::Super => seq!['s' as u8, 'u' as u8, 'p' as u8, 'e' as u8, 'r' as u8],
            Keyword::Fun => seq!['f' as u8, 'u' as u8, 'n' as u8],
            Keyword::This => seq!['t' as u8, 'h' as u8, 'i' as u8, 's' as u8],
            Keyword::Var => seq!['v' as u8, 'a' as u8, 'r' as u8],
            Keyword::While => seq!['w' as u8, 'h' as u8, 'i' as u8, 'l' as u8, 'e' as u8],
            Keyword::For => seq!['f' as u8, 'o' as u8, 'r' as u8],
            Keyword::If => seq!['i' as u8, 'f' as u8],
            Keyword::Else => seq!['e' as u8, 'l' as u8, 's' as u8, 'e' as u8],
            Keyword::And => seq!['a' as u8, 'n' as u8, 'd' as u8],
            Keyword::Or => seq!['o' as u8, 'r' as u8],
            Keyword::True => seq!['t' as u8, 'r' as u8, 'u' as u8, 'e' as u8],
            Keyword::False => seq!['f' as u8, 'a' as u8, 'l' as u8, 's' as u8, 'e' as u8],
            Keyword::Nil => seq!['n' as u8, 'i' as u8, 'l' as u8],
            Keyword::Print => seq!['p' as u8, 'r' as u8, 'i' as u8, 'n' as u8, 't' as u8],
            Keyword::Return => seq!['r' as u8, 'e' as u8, 't' as u8, 'u' as u8, 'r' as u8, 'n' as u8],
        }
    }
}

/// A keyword is recognized from its spelling, and from nothing else.
pub proof fn lemma_keyword_spelling(k: Keyword, lexeme: Seq<u8>)
    ensures
        keyword_of(k.spelling()) == Some(k),
        keyword_of(lexeme) == Some(k) ==> lexeme == k.spelling(),
{
}

} // verus!

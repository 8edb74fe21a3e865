use lox::lexer::{LexError, Lexer};
use lox::range::Range;
use lox::token::{Keyword, Token, TokenKind};

fn tokens(source: &str) -> Vec<Result<Token, LexError>> {
    let mut lexer = Lexer::new(source);
    let mut items = Vec::new();
    while let Some(item) = lexer.next() {
        items.push(item);
    }
    items
}

#[test]
fn lexer_reports_spans_of_each_token() {
    let items = tokens("var x = 12.5;");
    let expected = vec![
        Ok(Token { range: Range { start: 0, end: 3 }, kind: TokenKind::Keyword(Keyword::Var) }),
        Ok(Token { range: Range { start: 4, end: 5 }, kind: TokenKind::Identifier }),
        Ok(Token { range: Range { start: 6, end: 7 }, kind: TokenKind::Equal }),
        Ok(Token { range: Range { start: 8, end: 12 }, kind: TokenKind::Number }),
        Ok(Token { range: Range { start: 12, end: 13 }, kind: TokenKind::Semicolon }),
    ];
    assert_eq!(items, expected);
}

#[test]
fn lexer_stays_exhausted() {
    let mut lexer = Lexer::new("  // only a comment");
    assert_eq!(lexer.next(), None);
    assert_eq!(lexer.next(), None);
    assert_eq!(lexer.source(), "  // only a comment");
}

#[test]
fn lexer_reads_two_character_operators() {
    let kinds: Vec<TokenKind> =
        tokens("!= == <= >= < > ! =").into_iter().map(|item| item.unwrap().kind).collect();
    let expected = vec![
        TokenKind::BangEqual,
        TokenKind::EqualEqual,
        TokenKind::LessEqual,
        TokenKind::GreaterEqual,
        TokenKind::Less,
        TokenKind::Greater,
        TokenKind::Bang,
        TokenKind::Equal,
    ];
    assert_eq!(kinds, expected);
}

#[test]
fn lexer_reports_unexpected_character() {
    let items = tokens("a # b");
    assert_eq!(items.len(), 3);
    assert_eq!(
        items[1],
        Err(LexError::UnexpectedCharacter { char: '#', range: Range { start: 2, end: 3 } })
    );
}

#[test]
fn lexer_reports_unterminated_string() {
    let items = tokens("print \"abc");
    assert_eq!(items[1], Err(LexError::UnterminatedString));
}

#[test]
fn lexer_reads_unicode_identifiers() {
    let items = tokens("größe = 1;");
    assert_eq!(
        items[0],
        Ok(Token { range: Range { start: 0, end: 7 }, kind: TokenKind::Identifier })
    );
}

#[test]
fn keywords_are_recognized_by_spelling() {
    let words = [
        ("class", Keyword::Class),
        ("super", Keyword::Super),
        ("fun", Keyword::Fun),
        ("this", Keyword::This),
        ("var", Keyword::Var),
        ("while", Keyword::While),
        ("for", Keyword::For),
        ("if", Keyword::If),
        ("else", Keyword::Else),
        ("and", Keyword::And),
        ("or", Keyword::Or),
        ("true", Keyword::True),
        ("false", Keyword::False),
        ("nil", Keyword::Nil),
        ("print", Keyword::Print),
        ("return", Keyword::Return),
    ];
    for (word, keyword) in words {
        assert_eq!(Keyword::from_lexeme(word), Some(keyword));
    }
    assert_eq!(Keyword::from_lexeme("classes"), None);
    assert_eq!(Keyword::from_lexeme("Fun"), None);
    assert_eq!(Keyword::from_lexeme(""), None);
}

#[test]
fn lexer_run_is_ordered_tokens_between_blank_text() {
    let source = "print 1 + x; // note\n  var y = \"a\";\n";
    let items = tokens(source);
    let bytes = source.as_bytes();
    let mut end = 0;
    for item in &items {
        let token = item.as_ref().unwrap();
        assert!(end <= token.range.start && token.range.start < token.range.end);
        assert!(token.range.end <= source.len());
        assert!(source.is_char_boundary(token.range.start) && source.is_char_boundary(token.range.end));
        let gap = &source[end..token.range.start];
        assert!(gap.trim().is_empty() || gap.trim_start().starts_with("//"));
        end = token.range.end;
    }
    assert_eq!(items.len(), 10);
    assert!(items.len() <= bytes.len());
    assert!(source[end..].trim().is_empty());
}

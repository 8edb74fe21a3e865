use lox::lexer::Lexer;
use lox::token::{Keyword, TokenKind};

#[test]
fn test_lexer() {
    let source = r#"
            fun ask(question) {
                return 42;
            }

            fun main() {
                var question = "
                    The Answer to the Great Question of Life,
                    the Universe and Everything.
                ";
                var answer = ask(question);
                print answer;
            }
        "#;
    let mut lexer = Lexer::new(source);
    let mut actual: Vec<TokenKind> = Vec::new();
    while let Some(item) = lexer.next() {
        actual.push(item.unwrap().kind);
    }
    let expected = [
        TokenKind::Keyword(Keyword::Fun),
        TokenKind::Identifier,
        TokenKind::LParen,
        TokenKind::Identifier,
        TokenKind::RParen,
        TokenKind::LBrace,
        TokenKind::Keyword(Keyword::Return),
        TokenKind::Number,
        TokenKind::Semicolon,
        TokenKind::RBrace,
        TokenKind::Keyword(Keyword::Fun),
        TokenKind::Identifier,
        TokenKind::LParen,
        TokenKind::RParen,
        TokenKind::LBrace,
        TokenKind::Keyword(Keyword::Var),
        TokenKind::Identifier,
        TokenKind::Equal,
        TokenKind::String,
        TokenKind::Semicolon,
        TokenKind::Keyword(Keyword::Var),
        TokenKind::Identifier,
        TokenKind::Equal,
        TokenKind::Identifier,
        TokenKind::LParen,
        TokenKind::Identifier,
        TokenKind::RParen,
        TokenKind::Semicolon,
        TokenKind::Keyword(Keyword::Print),
        TokenKind::Identifier,
        TokenKind::Semicolon,
        TokenKind::RBrace,
    ];
    assert_eq!(&actual[..], &expected[..]);
}

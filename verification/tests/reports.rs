use lox::lexer::LexError;
use lox::parser::{ParseError, Parser};
use lox::range::Range;
use lox::report::{parse_report, resolve_report};
use lox::resolver::ResolveError;
use lox::token::{Token, TokenKind};

#[test]
fn report_lists_each_syntax_error_on_its_own_line() {
    let source = "print );\nprint 1;\nvar;";
    let errors = Parser::new(source).parse().unwrap_err();
    assert_eq!(
        parse_report(&errors, source),
        "parse error: unexpected token `)` at 6..7\nparse error: unexpected token `;` at 21..22\n"
    );
}

#[test]
fn report_shows_lexical_errors() {
    let errors = vec![
        ParseError::LexError(LexError::UnexpectedCharacter { char: '@', range: Range { start: 6, end: 7 } }),
        ParseError::LexError(LexError::UnterminatedString),
    ];
    assert_eq!(
        parse_report(&errors, "print @;"),
        "lex error: unexpected character '@' at 6..7\nlex error: unterminated string\n"
    );
}

#[test]
fn report_shows_the_end_of_input() {
    assert_eq!(
        parse_report(&[ParseError::UnexpectedEndOfInput], "print 1"),
        "parse error: unexpected end of input\n"
    );
}

#[test]
fn report_shows_the_invalid_assignment_target() {
    let source = "1 = 2;";
    let errors = Parser::new(source).parse().unwrap_err();
    assert_eq!(parse_report(&errors, source), "parse error: invalid assignment target `1` at 0..1\n");
}

#[test]
fn report_shows_too_many_arguments_and_escapes() {
    let errors = vec![
        ParseError::TooManyArguments { range: Range { start: 0, end: 7 } },
        ParseError::InvalidEscapeSequence { range: Range { start: 11, end: 13 } },
    ];
    assert_eq!(
        parse_report(&errors, "f(a, b); \"a\\qb\";"),
        "parse error: too many arguments at 0..7 (arguments: `f(a, b), ..`\nparse error: invalid escape sequence \"\\q\" at 11..13\n"
    );
}

#[test]
fn report_writes_spans_in_decimal() {
    let source = "x".repeat(5000);
    let errors = vec![ParseError::UnexpectedToken(Token {
        range: Range { start: 123, end: 4567 },
        kind: TokenKind::Identifier,
    })];
    let expected = format!("parse error: unexpected token `{}` at 123..4567\n", &source[123..4567]);
    assert_eq!(parse_report(&errors, &source), expected);
}

#[test]
fn report_shows_resolution_errors() {
    let source = "{ var a = a; var b; var b; } return 1;";
    let errors = vec![
        ResolveError::ReadInOwnInitializer { range: Range { start: 10, end: 11 } },
        ResolveError::VariableAlreadyDeclared { range: Range { start: 24, end: 25 } },
        ResolveError::ReturnOutsideFunction { range: Range { start: 29, end: 35 } },
    ];
    assert_eq!(
        resolve_report(&errors, source),
        "resolve error: read local variable `a` in its own initializer at 10..11\nresolve error: variable `b` at 24..25 is already declared in this scope\nresolve error: return statement at 29..35 outside function\n"
    );
}

#[test]
fn report_of_no_errors_is_empty() {
    assert_eq!(parse_report(&[], "print 1;"), "");
    assert_eq!(resolve_report(&[], "print 1;"), "");
}

#[test]
fn lex_errors_read_as_their_message() {
    let unexpected = LexError::UnexpectedCharacter { char: '文', range: Range { start: 3, end: 6 } };
    assert_eq!(unexpected.message(), "unexpected character '文' at 3..6");
    assert_eq!(LexError::UnterminatedString.message(), "unterminated string");
}

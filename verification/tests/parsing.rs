use lox::ast::expression::{BinaryOperator, Expression, ExpressionKind, Literal};
use lox::ast::statement::Statement;
use lox::lexer::LexError;
use lox::parser::{ParseError, Parser};
use lox::range::Range;
use lox::token::{Token, TokenKind};

fn parse(source: &str) -> Result<Vec<Statement<'_>>, Vec<ParseError>> {
    Parser::new(source).parse()
}

fn expression_ids(e: &Expression, ids: &mut Vec<usize>) {
    match &e.kind {
        ExpressionKind::Logical { lhs, rhs, .. } | ExpressionKind::Binary { lhs, rhs, .. } => {
            expression_ids(lhs, ids);
            expression_ids(rhs, ids);
        }
        ExpressionKind::Assignment { value, .. } => expression_ids(value, ids),
        ExpressionKind::Unary { rhs, .. } => expression_ids(rhs, ids),
        ExpressionKind::Call { callee, arguments } => {
            expression_ids(callee, ids);
            for argument in arguments {
                expression_ids(argument, ids);
            }
        }
        ExpressionKind::Grouping { expression } => expression_ids(expression, ids),
        ExpressionKind::Variable { .. } | ExpressionKind::Literal(_) => {}
    }
    ids.push(e.id.index());
}

fn statement_ids(s: &Statement, ids: &mut Vec<usize>) {
    match s {
        Statement::FunctionDeclaration { declaration } => {
            for statement in &declaration.body {
                statement_ids(statement, ids);
            }
        }
        Statement::VariableDeclaration { initializer, .. } => {
            if let Some(e) = initializer {
                expression_ids(e, ids);
            }
        }
        Statement::Block { statements } => {
            for statement in statements {
                statement_ids(statement, ids);
            }
        }
        Statement::While { condition, body } => {
            expression_ids(condition, ids);
            statement_ids(body, ids);
        }
        Statement::If { condition, then_branch, else_branch } => {
            expression_ids(condition, ids);
            statement_ids(then_branch, ids);
            if let Some(b) = else_branch {
                statement_ids(b, ids);
            }
        }
        Statement::Print { expression } | Statement::Expression { expression } => {
            expression_ids(expression, ids)
        }
        Statement::Return { value, .. } => {
            if let Some(e) = value {
                expression_ids(e, ids);
            }
        }
    }
}

#[test]
fn parser_builds_binary_expressions_by_precedence() {
    let statements = parse("print 1 + 2 * 3;").unwrap();
    assert_eq!(statements.len(), 1);
    let Statement::Print { expression } = &statements[0] else {
        panic!("expected a print statement");
    };
    assert_eq!(expression.range, Range { start: 6, end: 15 });
    let ExpressionKind::Binary { operator, lhs, rhs } = &expression.kind else {
        panic!("expected a binary expression");
    };
    assert_eq!(*operator, BinaryOperator::Add);
    assert!(matches!(lhs.kind, ExpressionKind::Literal(Literal::Number("1"))));
    let ExpressionKind::Binary { operator, .. } = &rhs.kind else {
        panic!("expected a product");
    };
    assert_eq!(*operator, BinaryOperator::Mul);
}

#[test]
fn parser_gives_every_expression_its_own_identity() {
    let source = "var a = 1; fun f(x, y) { return x + y * a; } for (var i = 0; i < 3; i = i + 1) { print f(i, -i); } if (!a) print (a); else a = 2;";
    let statements = parse(source).unwrap();
    let mut ids = Vec::new();
    for statement in &statements {
        statement_ids(statement, &mut ids);
    }
    let count = ids.len();
    ids.sort();
    ids.dedup();
    assert_eq!(ids.len(), count);
    assert!(count > 15);
}

#[test]
fn parser_desugars_for_loops() {
    let statements = parse("for (var i = 0; i < 2; i = i + 1) print i;").unwrap();
    let Statement::Block { statements } = &statements[0] else {
        panic!("expected a block");
    };
    assert!(matches!(statements[0], Statement::VariableDeclaration { .. }));
    let Statement::While { body, .. } = &statements[1] else {
        panic!("expected a while loop");
    };
    let Statement::Block { statements } = body.as_ref() else {
        panic!("expected the body and the increment in a block");
    };
    assert!(matches!(statements[0], Statement::Print { .. }));
    assert!(matches!(statements[1], Statement::Expression { .. }));
}

#[test]
fn parser_reports_unexpected_end_of_input() {
    assert_eq!(parse("print 1").unwrap_err(), vec![ParseError::UnexpectedEndOfInput]);
}

#[test]
fn parser_reports_unexpected_token() {
    let errors = parse("print );").unwrap_err();
    assert_eq!(
        errors,
        vec![ParseError::UnexpectedToken(Token {
            range: Range { start: 6, end: 7 },
            kind: TokenKind::RParen
        })]
    );
}

#[test]
fn parser_reports_invalid_assignment_target() {
    let errors = parse("1 = 2;").unwrap_err();
    assert_eq!(errors[0], ParseError::InvalidAssignmentTarget { range: Range { start: 0, end: 1 } });
}

#[test]
fn parser_reports_return_outside_function() {
    let errors = parse("return 1;").unwrap_err();
    assert_eq!(errors, vec![ParseError::ReturnOutsideFunction { range: Range { start: 0, end: 6 } }]);
}

#[test]
fn parser_reports_invalid_escape_sequence() {
    let errors = parse("print \"a\\qb\";").unwrap_err();
    assert_eq!(errors, vec![ParseError::InvalidEscapeSequence { range: Range { start: 8, end: 10 } }]);
}

#[test]
fn parser_reports_lex_errors() {
    let errors = parse("print @;").unwrap_err();
    assert_eq!(
        errors[0],
        ParseError::LexError(LexError::UnexpectedCharacter {
            char: '@',
            range: Range { start: 6, end: 7 }
        })
    );
}

#[test]
fn parser_reports_too_many_arguments() {
    let arguments = vec!["0"; 256].join(", ");
    let source = format!("f({arguments});");
    let errors = parse(&source).unwrap_err();
    assert!(matches!(errors[0], ParseError::TooManyArguments { .. }));
}

#[test]
fn parser_collects_every_error() {
    let errors = parse("print ; var = 1; print 2;").unwrap_err();
    assert_eq!(errors.len(), 2);
}

#[test]
fn parser_reads_names_from_the_source() {
    let source = "var total = count + 12; { fun add(a, b) { return a + b; } }";
    let statements = parse(source).unwrap();
    let Statement::VariableDeclaration { name, initializer } = &statements[0] else {
        panic!("expected a declaration");
    };
    assert_eq!(name.text, &source[name.range.start..name.range.end]);
    assert_eq!(name.text, "total");
    let initializer = initializer.as_ref().unwrap();
    let ExpressionKind::Binary { lhs, rhs, .. } = &initializer.kind else {
        panic!("expected a sum");
    };
    let ExpressionKind::Variable { name } = lhs.kind else {
        panic!("expected a variable");
    };
    assert_eq!(name, &source[lhs.range.start..lhs.range.end]);
    let ExpressionKind::Literal(Literal::Number(digits)) = rhs.kind else {
        panic!("expected a number");
    };
    assert_eq!(digits, &source[rhs.range.start..rhs.range.end]);
    assert_eq!(&source[initializer.range.start..initializer.range.end], "count + 12");
    let Statement::Block { statements } = &statements[1] else {
        panic!("expected a block");
    };
    let Statement::FunctionDeclaration { declaration } = &statements[0] else {
        panic!("expected a function");
    };
    assert_eq!(declaration.name.text, "add");
    let parameters: Vec<&str> = declaration.parameters.iter().map(|p| p.text).collect();
    assert_eq!(parameters, vec!["a", "b"]);
    for parameter in &declaration.parameters {
        assert_eq!(parameter.text, &source[parameter.range.start..parameter.range.end]);
    }
}

#[test]
fn parser_error_spans_lie_in_the_source() {
    let source = "print (1 + ; x = = 2; f(1, 2";
    let errors = parse(source).unwrap_err();
    assert!(!errors.is_empty());
    for error in errors {
        let range = match error {
            ParseError::UnexpectedToken(token) => Some(token.range),
            ParseError::InvalidAssignmentTarget { range }
            | ParseError::ReturnOutsideFunction { range }
            | ParseError::TooManyArguments { range }
            | ParseError::InvalidEscapeSequence { range } => Some(range),
            _ => None,
        };
        if let Some(range) = range {
            assert!(range.start <= range.end && range.end <= source.len());
            assert!(source.is_char_boundary(range.start) && source.is_char_boundary(range.end));
        }
    }
}

#[test]
fn parser_skips_to_the_next_statement_after_an_error() {
    let errors = parse("print );\nprint 1;\nvar;").unwrap_err();
    assert_eq!(
        errors,
        vec![
            ParseError::UnexpectedToken(Token { range: Range { start: 6, end: 7 }, kind: TokenKind::RParen }),
            ParseError::UnexpectedToken(Token {
                range: Range { start: 21, end: 22 },
                kind: TokenKind::Semicolon
            }),
        ]
    );
}

#[test]
fn parser_parses_on_in_place_after_an_invalid_assignment_target() {
    let errors = parse("1 = 2 2; print 3;").unwrap_err();
    assert_eq!(
        errors,
        vec![
            ParseError::InvalidAssignmentTarget { range: Range { start: 0, end: 1 } },
            ParseError::UnexpectedToken(Token { range: Range { start: 6, end: 7 }, kind: TokenKind::Number }),
        ]
    );
}

#[test]
fn parser_keeps_the_function_depth_after_a_broken_body() {
    let errors = parse("fun f() { print ; } return 1;").unwrap_err();
    assert_eq!(
        errors,
        vec![ParseError::UnexpectedToken(Token {
            range: Range { start: 16, end: 17 },
            kind: TokenKind::Semicolon
        })]
    );
}

#[test]
fn parser_reads_the_semicolon_after_an_empty_initializer_as_the_condition() {
    let errors = parse("for (; i < 2; i = i + 1) print i;").unwrap_err();
    assert_eq!(
        errors,
        vec![ParseError::UnexpectedToken(Token {
            range: Range { start: 12, end: 13 },
            kind: TokenKind::Semicolon
        })]
    );
}

#[test]
fn parse_is_the_run_of_next() {
    for source in ["print 1; var a = 2; { print a; }", "print ); var = 1; print 2;", "fun f() { return 1; } f();"] {
        let mut parser = Parser::new(source);
        let mut items = Vec::new();
        while let Some(item) = parser.next() {
            items.push(item);
        }
        let errors: Vec<ParseError> = items.iter().filter_map(|i| i.as_ref().err().copied()).collect();
        match Parser::new(source).parse() {
            Ok(statements) => {
                assert!(errors.is_empty());
                assert_eq!(statements.len(), items.len());
            }
            Err(parsed_errors) => {
                assert!(!errors.is_empty());
                assert_eq!(parsed_errors, errors);
            }
        }
    }
}

#[test]
fn function_declaration_reports_its_name_and_arity() {
    let statements = parse("fun add(a, b, c) { return a + b + c; }").unwrap();
    let Statement::FunctionDeclaration { declaration } = &statements[0] else {
        panic!("expected a function declaration");
    };
    assert_eq!(declaration.name(), "add");
    assert_eq!(declaration.arity(), 3);

    let statements = parse("fun none() {}").unwrap();
    let Statement::FunctionDeclaration { declaration } = &statements[0] else {
        panic!("expected a function declaration");
    };
    assert_eq!(declaration.name(), "none");
    assert_eq!(declaration.arity(), 0);
}

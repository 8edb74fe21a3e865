use lox::ast::expression::{Expression, ExpressionKind};
use lox::ast::statement::Statement;
use lox::parser::Parser;
use lox::range::Range;
use lox::resolver::{ResolveError, Resolutions, Resolver};

fn resolve(source: &str) -> (Vec<Statement<'_>>, Result<Resolutions, Vec<ResolveError>>) {
    let statements = Parser::new(source).parse().unwrap();
    let result = Resolver::new().resolve(&statements);
    (statements, result)
}

fn print_expression<'s, 'a>(statement: &'s Statement<'a>) -> &'s Expression<'a> {
    match statement {
        Statement::Print { expression } => expression,
        _ => panic!("expected a print statement"),
    }
}

#[test]
fn globals_are_not_resolved() {
    let (statements, result) = resolve("var a = 1; print a;");
    let resolutions = result.unwrap();
    assert_eq!(resolutions.len(), 0);
    assert_eq!(resolutions.get(print_expression(&statements[1]).id), None);
}

#[test]
fn locals_resolve_to_their_scope_distance() {
    let (statements, result) = resolve("{ var a = 1; { var b = 2; print a; print b; } }");
    let resolutions = result.unwrap();
    let Statement::Block { statements: outer } = &statements[0] else {
        panic!("expected a block");
    };
    let Statement::Block { statements: inner } = &outer[1] else {
        panic!("expected a block");
    };
    assert_eq!(resolutions.get(print_expression(&inner[1]).id), Some(1));
    assert_eq!(resolutions.get(print_expression(&inner[2]).id), Some(0));
    assert_eq!(resolutions.len(), 2);
}

#[test]
fn parameters_resolve_in_the_function_scope() {
    let (statements, result) = resolve("fun f(x) { print x; }");
    let resolutions = result.unwrap();
    let Statement::FunctionDeclaration { declaration } = &statements[0] else {
        panic!("expected a function");
    };
    assert_eq!(resolutions.get(print_expression(&declaration.body[0]).id), Some(0));
}

#[test]
fn assignments_resolve_like_reads() {
    let (statements, result) = resolve("{ var a = 1; { a = 2; } }");
    let resolutions = result.unwrap();
    let Statement::Block { statements: outer } = &statements[0] else {
        panic!("expected a block");
    };
    let Statement::Block { statements: inner } = &outer[1] else {
        panic!("expected a block");
    };
    let Statement::Expression { expression } = &inner[0] else {
        panic!("expected an expression statement");
    };
    assert!(matches!(expression.kind, ExpressionKind::Assignment { .. }));
    assert_eq!(resolutions.get(expression.id), Some(1));
}

#[test]
fn reading_a_local_in_its_own_initializer_is_an_error() {
    let (_, result) = resolve("{ var a = a; }");
    assert_eq!(
        result.unwrap_err(),
        vec![ResolveError::ReadInOwnInitializer { range: Range { start: 10, end: 11 } }]
    );
}

#[test]
fn declaring_a_local_twice_is_an_error() {
    let (_, result) = resolve("{ var a = 1; var a = 2; }");
    assert_eq!(
        result.unwrap_err(),
        vec![ResolveError::VariableAlreadyDeclared { range: Range { start: 17, end: 18 } }]
    );
}

#[test]
fn return_outside_a_function_is_an_error() {
    let statement = Statement::return_statement(Range::new(0, 6), None);
    let result = Resolver::new().resolve(&[statement]);
    assert_eq!(
        result.unwrap_err(),
        vec![ResolveError::ReturnOutsideFunction { range: Range { start: 0, end: 6 } }]
    );
}

#[test]
fn errors_are_kept_in_order() {
    let (_, result) = resolve("{ var a = 1; var a = 2; } { var b = b; }");
    assert_eq!(
        result.unwrap_err(),
        vec![
            ResolveError::VariableAlreadyDeclared { range: Range { start: 17, end: 18 } },
            ResolveError::ReadInOwnInitializer { range: Range { start: 36, end: 37 } },
        ]
    );
}

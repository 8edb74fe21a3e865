//! How errors read: the lines that a runner shows for the lexical, syntax
//! and resolution errors of a source, one line per error.

use crate::grammar::text_at;
use crate::lexer::LexError;
use crate::parser::{
    all_read, identifier_reads, reads, reported_in, span_in, statement_reads, statements_read,
    ParseError,
};
use crate::ast::expression::{Expression, ExpressionKind};
use crate::ast::statement::{Identifier, Statement};
use crate::range::Range;
use crate::resolver::{
    declared, defined, expression_resolved, expressions_resolved, opened, parameters_bound,
    statement_resolved, statements_resolved, with_error, ResolveError, ResolverState,
};
use crate::text::slice;
use vstd::prelude::*;
use vstd::string::{StringExecFns, StringSliceAdditionalSpecFns};
use vstd::utf8::*;

verus! {

broadcast use vstd::utf8::group_utf8_lib;

/// The character of the decimal digit `d`.
pub open spec fn digit(d: nat) -> char {
    if d == 0 {
        '0'
    } else if d == 1 {
        '1'
    } else if d == 2 {
        '2'
    } else if d == 3 {
        '3'
    } else if d == 4 {
        '4'
    } else if d == 5 {
        '5'
    } else if d == 6 {
        '6'
    } else if d == 7 {
        '7'
    } else if d == 8 {
        '8'
    } else {
        '9'
    }
}

/// The decimal numeral of `n`, without leading zeros.
pub open spec fn decimal(n: nat) -> Seq<char>
    decreases n,
{
    if n < 10 {
        seq![digit(n)]
    } else {
        decimal(n / 10).push(digit(n % 10))
    }
}

/// A span as its bounds read: `start..end`.
pub open spec fn span_text(r: Range) -> Seq<char> {
    decimal(r.start as nat) + seq!['.', '.'] + decimal(r.end as nat)
}

/// The characters of `source` in the span `r`.
pub open spec fn chars_at(source: &str, r: Range) -> Seq<char> {
    decode_utf8(text_at(source.spec_bytes(), r))
}

/// What a lexical error says.
pub open spec fn lex_error_text(e: LexError) -> Seq<char> {
    match e {
        LexError::UnexpectedCharacter { char, range } => "unexpected character '"@ + seq![char]
            + "' at "@ + span_text(range),
        LexError::UnterminatedString => "unterminated string"@,
    }
}

/// The line of a lexical error, without its line break.
pub open spec fn lex_error_line(e: LexError) -> Seq<char> {
    "lex error: "@ + lex_error_text(e)
}

/// The line of a syntax error of `source`, without its line break.
pub open spec fn parse_error_line(e: ParseError, source: &str) -> Seq<char> {
    match e {
        ParseError::LexError(l) => lex_error_line(l),
        ParseError::UnexpectedEndOfInput => "parse error: "@ + "unexpected end of input"@,
        ParseError::UnexpectedToken(t) => "parse error: "@ + "unexpected token `"@ + chars_at(
            source,
            t.range,
        ) + "` at "@ + span_text(t.range),
        ParseError::InvalidAssignmentTarget { range } => "parse error: "@
            + "invalid assignment target `"@ + chars_at(source, range) + "` at "@ + span_text(
            range,
        ),
        ParseError::TooManyArguments { range } => "parse error: "@ + "too many arguments at "@
            + span_text(range) + " (arguments: `"@ + chars_at(source, range) + ", ..`"@,
        ParseError::InvalidEscapeSequence { range } => "parse error: "@
            + "invalid escape sequence \""@ + chars_at(source, range) + "\" at "@ + span_text(
            range,
        ),
        ParseError::ReturnOutsideFunction { .. } => "parse error: "@,
    }
}

/// The lines of syntax errors of `source`, each ended by a line break.
pub open spec fn parse_report_text(errors: Seq<ParseError>, source: &str) -> Seq<char>
    decreases errors.len(),
{
    if errors.len() == 0 {
        Seq::empty()
    } else {
        parse_report_text(errors.drop_last(), source) + parse_error_line(errors.last(), source)
            + "\n"@
    }
}

/// Whether `source` holds the span of a resolution error.
pub open spec fn resolve_error_in(e: ResolveError, source: &str) -> bool {
    match e {
        ResolveError::ReturnOutsideFunction { .. } => true,
        ResolveError::ReadInOwnInitializer { range } => span_in(source.spec_bytes(), range),
        ResolveError::VariableAlreadyDeclared { range } => span_in(source.spec_bytes(), range),
    }
}

/// The line of a resolution error of `source`, without its line break.
pub open spec fn resolve_error_line(e: ResolveError, source: &str) -> Seq<char> {
    "resolve error: "@ + match e {
        ResolveError::ReturnOutsideFunction { range } => "return statement at "@ + span_text(range)
            + " outside function"@,
        ResolveError::ReadInOwnInitializer { range } => "read local variable `"@ + chars_at(
            source,
            range,
        ) + "` in its own initializer at "@ + span_text(range),
        ResolveError::VariableAlreadyDeclared { range } => "variable `"@ + chars_at(source, range)
            + "` at "@ + span_text(range) + " is already declared in this scope"@,
    }
}

/// The lines of resolution errors of `source`, each ended by a line break.
pub open spec fn resolve_report_text(errors: Seq<ResolveError>, source: &str) -> Seq<char>
    decreases errors.len(),
{
    if errors.len() == 0 {
        Seq::empty()
    } else {
        resolve_report_text(errors.drop_last(), source) + resolve_error_line(errors.last(), source)
            + "\n"@
    }
}

/// Appends the character `c`.
///
/// Calls `String::push`, which, as its documentation says, appends the given
/// character to the end of the string.
#[verifier::external_body]
fn push_char(out: &mut String, c: char)
    ensures
        final(out)@ == old(out)@.push(c),
{
    out.push(c);
}

/// Appends the text `s`.
fn push_text(out: &mut String, s: &str)
    ensures
        final(out)@ == old(out)@ + s@,
{
    out.append(s);
}

/// Appends the decimal numeral of `n`.
fn push_decimal(out: &mut String, n: usize)
    ensures
        final(out)@ == old(out)@ + decimal(n as nat),
    decreases n,
{
    if n >= 10 {
        push_decimal(out, n / 10);
    }
    let d = n % 10;
    let c = if d == 0 {
        '0'
    } else if d == 1 {
        '1'
    } else if d == 2 {
        '2'
    } else if d == 3 {
        '3'
    } else if d == 4 {
        '4'
    } else if d == 5 {
        '5'
    } else if d == 6 {
        '6'
    } else if d == 7 {
        '7'
    } else if d == 8 {
        '8'
    } else {
        '9'
    };
    let ghost before = out@;
    push_char(out, c);
    assert(c == digit(d as nat));
    if n >= 10 {
        assert(out@ =~= old(out)@ + decimal(n as nat));
    } else {
        assert(out@ =~= old(out)@ + decimal(n as nat));
    }
}

/// Appends the span `r` as `start..end`.
fn push_span(out: &mut String, r: Range)
    ensures
        final(out)@ == old(out)@ + span_text(r),
{
    push_decimal(out, r.start);
    proof {
        reveal_strlit("..");
    }
    push_text(out, "..");
    push_decimal(out, r.end);
    assert(out@ =~= old(out)@ + span_text(r));
}

/// Appends the text of `source` in the span `r`.
fn push_source(out: &mut String, source: &str, r: Range)
    requires
        span_in(source.spec_bytes(), r),
    ensures
        final(out)@ == old(out)@ + chars_at(source, r),
{
    let piece = slice(source, r.start, r.end);
    proof {
        encode_utf8_decode_utf8(piece@);
    }
    push_text(out, piece);
}

/// Appends what the lexical error `e` says.
fn push_lex_error_text(out: &mut String, e: LexError)
    ensures
        final(out)@ == old(out)@ + lex_error_text(e),
{
    match e {
        LexError::UnexpectedCharacter { char, range } => {
            push_text(out, "unexpected character '");
            push_char(out, char);
            push_text(out, "' at ");
            push_span(out, range);
        },
        LexError::UnterminatedString => {
            push_text(out, "unterminated string");
        },
    }
    assert(out@ =~= old(out)@ + lex_error_text(e));
}

/// Appends the line of the lexical error `e`.
fn push_lex_error(out: &mut String, e: LexError)
    ensures
        final(out)@ == old(out)@ + lex_error_line(e),
{
    push_text(out, "lex error: ");
    push_lex_error_text(out, e);
    assert(out@ =~= old(out)@ + lex_error_line(e));
}

impl LexError {
    /// What the error says: the unexpected character and its span, or that
    /// a string is unterminated.
    pub fn message(&self) -> (r: String)
        ensures
            r@ == lex_error_text(*self),
    {
        let mut out = String::new();
        push_lex_error_text(&mut out, *self);
        assert(out@ =~= lex_error_text(*self));
        out
    }
}

/// Appends the line of the syntax error `e` of `source`.
fn push_parse_error(out: &mut String, e: ParseError, source: &str)
    requires
        reported_in(e, source.spec_bytes()),
        !(e is ReturnOutsideFunction),
    ensures
        final(out)@ == old(out)@ + parse_error_line(e, source),
{
    match e {
        ParseError::LexError(l) => {
            push_lex_error(out, l);
        },
        ParseError::UnexpectedEndOfInput => {
            push_text(out, "parse error: ");
            push_text(out, "unexpected end of input");
        },
        ParseError::UnexpectedToken(t) => {
            push_text(out, "parse error: ");
            push_text(out, "unexpected token `");
            push_source(out, source, t.range);
            push_text(out, "` at ");
            push_span(out, t.range);
        },
        ParseError::InvalidAssignmentTarget { range } => {
            push_text(out, "parse error: ");
            push_text(out, "invalid assignment target `");
            push_source(out, source, range);
            push_text(out, "` at ");
            push_span(out, range);
        },
        ParseError::TooManyArguments { range } => {
            push_text(out, "parse error: ");
            push_text(out, "too many arguments at ");
            push_span(out, range);
            push_text(out, " (arguments: `");
            push_source(out, source, range);
            push_text(out, ", ..`");
        },
        ParseError::InvalidEscapeSequence { range } => {
            push_text(out, "parse error: ");
            push_text(out, "invalid escape sequence \"");
            push_source(out, source, range);
            push_text(out, "\" at ");
            push_span(out, range);
        },
        ParseError::ReturnOutsideFunction { .. } => {
            push_text(out, "parse error: ");
        },
    }
    assert(out@ =~= old(out)@ + parse_error_line(e, source));
}

/// The lines of the syntax errors `errors` of `source`, in order, each
/// ended by a line break. Every error is one the parser reports for
/// `source`; a return outside any function is not among them, as the
/// runner has no line for it.
pub fn parse_report(errors: &[ParseError], source: &str) -> (r: String)
    requires
        forall|i: int|
            0 <= i < errors@.len() ==> reported_in(#[trigger] errors@[i], source.spec_bytes())
                && !(errors@[i] is ReturnOutsideFunction),
    ensures
        r@ == parse_report_text(errors@, source),
{
    let mut out = String::new();
    let mut i: usize = 0;
    while i < errors.len()
        invariant
            i <= errors@.len(),
            out@ == parse_report_text(errors@.subrange(0, i as int), source),
            forall|j: int|
                0 <= j < errors@.len() ==> reported_in(#[trigger] errors@[j], source.spec_bytes())
                    && !(errors@[j] is ReturnOutsideFunction),
        decreases errors@.len() - i,
    {
        let ghost done = errors@.subrange(0, i as int);
        push_parse_error(&mut out, errors[i], source);
        push_text(&mut out, "\n");
        i = i + 1;
        assert(errors@.subrange(0, i as int).drop_last() =~= done);
    }
    assert(errors@.subrange(0, errors@.len() as int) =~= errors@);
    out
}

/// Appends the line of the resolution error `e` of `source`.
fn push_resolve_error(out: &mut String, e: ResolveError, source: &str)
    requires
        resolve_error_in(e, source),
    ensures
        final(out)@ == old(out)@ + resolve_error_line(e, source),
{
    push_text(out, "resolve error: ");
    match e {
        ResolveError::ReturnOutsideFunction { range } => {
            push_text(out, "return statement at ");
            push_span(out, range);
            push_text(out, " outside function");
        },
        ResolveError::ReadInOwnInitializer { range } => {
            push_text(out, "read local variable `");
            push_source(out, source, range);
            push_text(out, "` in its own initializer at ");
            push_span(out, range);
        },
        ResolveError::VariableAlreadyDeclared { range } => {
            push_text(out, "variable `");
            push_source(out, source, range);
            push_text(out, "` at ");
            push_span(out, range);
            push_text(out, " is already declared in this scope");
        },
    }
    assert(out@ =~= old(out)@ + resolve_error_line(e, source));
}

/// The lines of the resolution errors `errors` of `source`, in order, each
/// ended by a line break.
pub fn resolve_report(errors: &[ResolveError], source: &str) -> (r: String)
    requires
        forall|i: int| 0 <= i < errors@.len() ==> resolve_error_in(#[trigger] errors@[i], source),
    ensures
        r@ == resolve_report_text(errors@, source),
{
    let mut out = String::new();
    let mut i: usize = 0;
    while i < errors.len()
        invariant
            i <= errors@.len(),
            out@ == resolve_report_text(errors@.subrange(0, i as int), source),
            forall|j: int|
                0 <= j < errors@.len() ==> resolve_error_in(#[trigger] errors@[j], source),
        decreases errors@.len() - i,
    {
        let ghost done = errors@.subrange(0, i as int);
        push_resolve_error(&mut out, errors[i], source);
        push_text(&mut out, "\n");
        i = i + 1;
        assert(errors@.subrange(0, i as int).drop_last() =~= done);
    }
    assert(errors@.subrange(0, errors@.len() as int) =~= errors@);
    out
}

/// Whether the span of the resolution error `e` lies in `bytes` on
/// character boundaries.
pub open spec fn resolve_error_within(e: ResolveError, bytes: Seq<u8>) -> bool {
    match e {
        ResolveError::ReturnOutsideFunction { range } => span_in(bytes, range),
        ResolveError::ReadInOwnInitializer { range } => span_in(bytes, range),
        ResolveError::VariableAlreadyDeclared { range } => span_in(bytes, range),
    }
}

/// Whether every error of a resolver's state lies in `bytes`.
pub open spec fn errors_within(state: ResolverState, bytes: Seq<u8>) -> bool {
    state.result matches Err(errors) ==> forall|i: int|
        0 <= i < errors.len() ==> resolve_error_within(#[trigger] errors[i], bytes)
}

proof fn lemma_with_error_within(state: ResolverState, e: ResolveError, bytes: Seq<u8>)
    requires
        errors_within(state, bytes),
        resolve_error_within(e, bytes),
    ensures
        errors_within(with_error(state, e), bytes),
{
    match state.result {
        Ok(_) => {},
        Err(errors) => {
            let all = errors.push(e);
            assert forall|i: int| 0 <= i < all.len() implies resolve_error_within(
                #[trigger] all[i],
                bytes,
            ) by {
                if i < errors.len() {
                    assert(all[i] == errors[i]);
                }
            }
        },
    }
}

proof fn lemma_expression_within(state: ResolverState, e: Expression, bytes: Seq<u8>)
    requires
        errors_within(state, bytes),
        reads(e, bytes),
    ensures
        errors_within(expression_resolved(state, e), bytes),
    decreases e,
{
    match e.kind {
        ExpressionKind::Logical { lhs, rhs, .. } => {
            lemma_expression_within(state, *lhs, bytes);
            lemma_expression_within(expression_resolved(state, *lhs), *rhs, bytes);
        },
        ExpressionKind::Assignment { value, .. } => {
            lemma_expression_within(state, *value, bytes);
        },
        ExpressionKind::Binary { lhs, rhs, .. } => {
            lemma_expression_within(state, *lhs, bytes);
            lemma_expression_within(expression_resolved(state, *lhs), *rhs, bytes);
        },
        ExpressionKind::Unary { rhs, .. } => {
            lemma_expression_within(state, *rhs, bytes);
        },
        ExpressionKind::Call { callee, arguments } => {
            lemma_expression_within(state, *callee, bytes);
            lemma_expressions_within(expression_resolved(state, *callee), arguments@, bytes);
        },
        ExpressionKind::Grouping { expression } => {
            lemma_expression_within(state, *expression, bytes);
        },
        ExpressionKind::Variable { name } => {
            lemma_with_error_within(state, ResolveError::ReadInOwnInitializer { range: e.range }, bytes);
        },
        ExpressionKind::Literal(_) => {},
    }
}

proof fn lemma_expressions_within(state: ResolverState, es: Seq<Expression>, bytes: Seq<u8>)
    requires
        errors_within(state, bytes),
        all_read(es, bytes),
    ensures
        errors_within(expressions_resolved(state, es), bytes),
    decreases es,
{
    if es.len() > 0 {
        lemma_expressions_within(state, es.drop_last(), bytes);
        lemma_expression_within(expressions_resolved(state, es.drop_last()), es.last(), bytes);
    }
}

proof fn lemma_declared_within(state: ResolverState, name: Identifier, bytes: Seq<u8>)
    requires
        errors_within(state, bytes),
        identifier_reads(name, bytes),
    ensures
        errors_within(declared(state, name.text.spec_bytes(), name.range), bytes),
        errors_within(
            defined(declared(state, name.text.spec_bytes(), name.range), name.text.spec_bytes()),
            bytes,
        ),
{
    lemma_with_error_within(state, ResolveError::VariableAlreadyDeclared { range: name.range }, bytes);
}

proof fn lemma_parameters_within(state: ResolverState, parameters: Seq<Identifier>, bytes: Seq<u8>)
    requires
        errors_within(state, bytes),
        forall|i: int| 0 <= i < parameters.len() ==> identifier_reads(#[trigger] parameters[i], bytes),
    ensures
        errors_within(parameters_bound(state, parameters), bytes),
    decreases parameters.len(),
{
    if parameters.len() > 0 {
        let rest = parameters.drop_last();
        assert forall|i: int| 0 <= i < rest.len() implies identifier_reads(#[trigger] rest[i], bytes) by {
            assert(rest[i] == parameters[i]);
        }
        lemma_parameters_within(state, rest, bytes);
        lemma_declared_within(parameters_bound(state, rest), parameters.last(), bytes);
    }
}

proof fn lemma_statement_within(state: ResolverState, s: Statement, bytes: Seq<u8>)
    requires
        errors_within(state, bytes),
        statement_reads(s, bytes),
    ensures
        errors_within(statement_resolved(state, s), bytes),
    decreases s,
{
    match s {
        Statement::FunctionDeclaration { declaration } => {
            let entered = ResolverState {
                scopes: state.scopes,
                depth: state.depth + 1,
                result: state.result,
            };
            let name = declaration.name.text.spec_bytes();
            lemma_declared_within(entered, declaration.name, bytes);
            let named = defined(declared(entered, name, declaration.name.range), name);
            lemma_parameters_within(opened(named), declaration.parameters@, bytes);
            let bound = parameters_bound(opened(named), declaration.parameters@);
            lemma_statements_within(bound, declaration.body@, bytes);
        },
        Statement::VariableDeclaration { name, initializer } => {
            lemma_declared_within(state, name, bytes);
            let d = declared(state, name.text.spec_bytes(), name.range);
            match initializer {
                Some(e) => {
                    lemma_expression_within(d, e, bytes);
                },
                None => {},
            }
        },
        Statement::Block { statements } => {
            lemma_statements_within(opened(state), statements@, bytes);
        },
        Statement::While { condition, body } => {
            lemma_expression_within(state, condition, bytes);
            lemma_statement_within(expression_resolved(state, condition), *body, bytes);
        },
        Statement::If { condition, then_branch, else_branch } => {
            lemma_expression_within(state, condition, bytes);
            let c = expression_resolved(state, condition);
            lemma_statement_within(c, *then_branch, bytes);
            match else_branch {
                Some(b) => {
                    lemma_statement_within(statement_resolved(c, *then_branch), *b, bytes);
                },
                None => {},
            }
        },
        Statement::Print { expression } => {
            lemma_expression_within(state, expression, bytes);
        },
        Statement::Return { keyword_range, value } => {
            lemma_with_error_within(state, ResolveError::ReturnOutsideFunction { range: keyword_range }, bytes);
            let checked = if state.depth == 0 {
                with_error(state, ResolveError::ReturnOutsideFunction { range: keyword_range })
            } else {
                state
            };
            match value {
                Some(e) => {
                    lemma_expression_within(checked, e, bytes);
                },
                None => {},
            }
        },
        Statement::Expression { expression } => {
            lemma_expression_within(state, expression, bytes);
        },
    }
}

proof fn lemma_statements_within(state: ResolverState, ss: Seq<Statement>, bytes: Seq<u8>)
    requires
        errors_within(state, bytes),
        statements_read(ss, bytes),
    ensures
        errors_within(statements_resolved(state, ss), bytes),
    decreases ss,
{
    if ss.len() > 0 {
        lemma_statements_within(state, ss.drop_last(), bytes);
        lemma_statement_within(statements_resolved(state, ss.drop_last()), ss.last(), bytes);
    }
}

/// The errors that resolving statements read from `source` reports lie in
/// `source`, so that `resolve_report` can show them: a resolver that starts
/// with no error and walks statements whose names and expressions are the
/// text of `source` at their spans reports only spans of `source`.
pub proof fn lemma_resolve_errors_in_source(state: ResolverState, ss: Seq<Statement>, source: &str)
    requires
        state.result is Ok,
        statements_read(ss, source.spec_bytes()),
    ensures
        statements_resolved(state, ss).result matches Err(errors) ==> forall|i: int|
            0 <= i < errors.len() ==> resolve_error_in(#[trigger] errors[i], source),
{
    lemma_statements_within(state, ss, source.spec_bytes());
    if let Err(errors) = statements_resolved(state, ss).result {
        assert forall|i: int| 0 <= i < errors.len() implies resolve_error_in(#[trigger] errors[i], source) by {
            assert(resolve_error_within(errors[i], source.spec_bytes()));
        }
    }
}

} // verus!

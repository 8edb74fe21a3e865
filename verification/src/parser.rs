//! The parser: a recursive-descent parser over the lexer's tokens, with
//! panic-mode recovery that collects every error of a source.

use crate::ast::expression::{
    ExpressionShape, ShapeKind,
    covers, expression_ids, expressions_ids, lemma_covers_distinct, lemma_covers_empty,
    lemma_shapes_len, lemma_shapes_push, shape, shapes,
    lemma_covers_join,
    lemma_covers_single, lemma_covers_widen, BinaryOperator, Expression, ExpressionId,
    ExpressionIdGenerator, ExpressionKind, Literal, LogicalOperator, UnaryOperator,
};
use crate::ast::statement::{
    lemma_if_ids, lemma_name_shapes_push, lemma_statement_shapes_pair, lemma_statement_shapes_push,
    lemma_statements_ids_pair,
    lemma_statements_ids_push, maybe_shape, maybe_statement_shape, name_shapes,
    statement_ids, statement_shape, statement_shapes, statements_ids, FunctionDeclaration,
    Identifier, Statement, StatementShape,
};
use std::rc::Rc;
use crate::grammar::{
    advance, atom_kind, beyond, for_loop_shape, g_arguments, g_arguments_from, g_assignment,
    g_block, g_block_from, g_body, g_call, g_call_tail, g_declaration, g_declarations, g_else,
    g_errors, g_expect, g_expression, g_expression_statement, g_for, g_for_condition,
    g_for_increment, g_for_initializer, g_function, g_if, g_keyword, g_level, g_level_tail,
    g_parameters, g_parameters_from, g_peek, g_primary, g_print, g_return, g_statement, g_unary,
    g_variable, g_while, node, start, not_before, peek, recovery, string_kind, synchronized, text_at,
    Cursor, Failure,
};
use crate::resolver::{
    lemma_statements_nesting_pair, max_nat, statement_nesting, statements_nesting,
};
use crate::lexer::{lemma_lex_exhausted, lex, run_to, LexError, Lexer};
use crate::range::Range;
use crate::string::{unescape_bytes, LoxString};
use crate::text::{lemma_ascii_boundary, lemma_segment_boundary, slice};
use crate::token::{Keyword, Token, TokenKind};
use vstd::prelude::*;
use vstd::string::StringSliceAdditionalSpecFns;
use vstd::utf8::*;

verus! {

broadcast use vstd::utf8::group_utf8_lib;

/// The most parameters a function may declare and arguments a call may pass.
pub const MAX_ARITY: usize = 255;

/// A syntax error.
#[derive(Debug, Clone, Copy, PartialEq, Eq, Structural)]
pub enum ParseError {
    LexError(LexError),
    UnexpectedEndOfInput,
    UnexpectedToken(Token),
    ReturnOutsideFunction { range: Range },
    InvalidAssignmentTarget { range: Range },
    TooManyArguments { range: Range },
    InvalidEscapeSequence { range: Range },
}

/// What the parser makes of what the lexer gives: a lexical error becomes a
/// syntax error.
pub open spec fn as_parse_item(item: Option<Result<Token, LexError>>) -> Option<
    Result<Token, ParseError>,
> {
    match item {
        None => None,
        Some(Ok(token)) => Some(Ok(token)),
        Some(Err(error)) => Some(Err(ParseError::LexError(error))),
    }
}

/// A token that the lexer gave for `bytes`: a nonempty span that starts and
/// ends on character boundaries, and, for a string literal, opens and closes
/// with a quote.
pub open spec fn token_fits(bytes: Seq<u8>, t: Token) -> bool {
    &&& t.range.start < t.range.end <= bytes.len()
    &&& is_char_boundary(bytes, t.range.start as int)
    &&& is_char_boundary(bytes, t.range.end as int)
    &&& t.kind == TokenKind::String ==> t.range.end >= t.range.start + 2 && bytes[t.range.start as int]
        == '"' as u8 && bytes[t.range.end - 1] == '"' as u8
}

/// A span of `bytes` that starts and ends on character boundaries.
pub open spec fn span_in(bytes: Seq<u8>, r: Range) -> bool {
    &&& r.start <= r.end <= bytes.len()
    &&& is_char_boundary(bytes, r.start as int)
    &&& is_char_boundary(bytes, r.end as int)
}

/// Whether the expression `e` reads the source `bytes`: every node's span
/// lies in the source on character boundaries; a variable's name, and a
/// number's digits, are the text at its span; an assignment's name is the
/// text its span starts with; a string's value is the text between its
/// quotes, unescaped.
pub open spec fn reads(e: Expression, bytes: Seq<u8>) -> bool
    decreases e,
{
    &&& span_in(bytes, e.range)
    &&& match e.kind {
        ExpressionKind::Logical { lhs, rhs, .. } => reads(*lhs, bytes) && reads(*rhs, bytes),
        ExpressionKind::Assignment { name, value } => reads(*value, bytes) && e.range.start
            + name.spec_bytes().len() <= bytes.len() && name.spec_bytes() == bytes.subrange(
            e.range.start as int,
            e.range.start + name.spec_bytes().len(),
        ),
        ExpressionKind::Binary { lhs, rhs, .. } => reads(*lhs, bytes) && reads(*rhs, bytes),
        ExpressionKind::Unary { rhs, .. } => reads(*rhs, bytes),
        ExpressionKind::Call { callee, arguments } => reads(*callee, bytes) && all_read(
            arguments@,
            bytes,
        ),
        ExpressionKind::Grouping { expression } => reads(*expression, bytes),
        ExpressionKind::Variable { name } => name.spec_bytes() == text_at(bytes, e.range),
        ExpressionKind::Literal(Literal::Number(digits)) => digits.spec_bytes() == text_at(
            bytes,
            e.range,
        ),
        ExpressionKind::Literal(Literal::String(s)) => e.range.start + 2 <= e.range.end
            && unescape_bytes(bytes.subrange(e.range.start + 1, e.range.end - 1)) == Ok::<
            Seq<u8>,
            Range,
        >(s@),
        ExpressionKind::Literal(_) => true,
    }
}

/// Whether every expression of `es` reads the source `bytes`.
pub open spec fn all_read(es: Seq<Expression>, bytes: Seq<u8>) -> bool
    decreases es,
{
    if es.len() == 0 {
        true
    } else {
        all_read(es.drop_last(), bytes) && reads(es.last(), bytes)
    }
}

/// Whether `e` reads the source `bytes` and lies between two offsets.
pub open spec fn reads_between(e: Expression, bytes: Seq<u8>, from: int, to: int) -> bool {
    &&& reads(e, bytes)
    &&& from <= e.range.start
    &&& e.range.end <= to
}

/// Whether the error `e` reports a span of the source `bytes` that a reader
/// can show: a token's, a construct's or a bad escape's span, on character
/// boundaries.
pub open spec fn reported_in(e: ParseError, bytes: Seq<u8>) -> bool {
    match e {
        ParseError::UnexpectedToken(t) => span_in(bytes, t.range),
        ParseError::ReturnOutsideFunction { range } => span_in(bytes, range),
        ParseError::InvalidAssignmentTarget { range } => span_in(bytes, range),
        ParseError::TooManyArguments { range } => span_in(bytes, range),
        ParseError::InvalidEscapeSequence { range } => span_in(bytes, range),
        ParseError::LexError(_) => true,
        ParseError::UnexpectedEndOfInput => true,
    }
}

/// Whether the name `i` is the text of the source `bytes` at its span.
pub open spec fn identifier_reads(i: Identifier, bytes: Seq<u8>) -> bool {
    span_in(bytes, i.range) && i.text.spec_bytes() == text_at(bytes, i.range)
}

/// Whether the statement `s` reads the source `bytes`: its expressions
/// do, its names are the text at their spans, and a return keyword's span
/// lies in the source.
pub open spec fn statement_reads(s: Statement, bytes: Seq<u8>) -> bool
    decreases s,
{
    match s {
        Statement::FunctionDeclaration { declaration } => {
            &&& identifier_reads(declaration.name, bytes)
            &&& forall|i: int|
                0 <= i < declaration.parameters@.len() ==> identifier_reads(
                    #[trigger] declaration.parameters@[i],
                    bytes,
                )
            &&& statements_read(declaration.body@, bytes)
        },
        Statement::VariableDeclaration { name, initializer } => identifier_reads(name, bytes) && (
        initializer matches Some(e) ==> reads(e, bytes)),
        Statement::Block { statements } => statements_read(statements@, bytes),
        Statement::While { condition, body } => reads(condition, bytes) && statement_reads(
            *body,
            bytes,
        ),
        Statement::If { condition, then_branch, else_branch } => reads(condition, bytes)
            && statement_reads(*then_branch, bytes) && (else_branch matches Some(b)
            ==> statement_reads(*b, bytes)),
        Statement::Print { expression } => reads(expression, bytes),
        Statement::Return { keyword_range, value } => span_in(bytes, keyword_range) && (
        value matches Some(e) ==> reads(e, bytes)),
        Statement::Expression { expression } => reads(expression, bytes),
    }
}

/// Whether every statement of `ss` reads the source `bytes`.
pub open spec fn statements_read(ss: Seq<Statement>, bytes: Seq<u8>) -> bool
    decreases ss,
{
    if ss.len() == 0 {
        true
    } else {
        statements_read(ss.drop_last(), bytes) && statement_reads(ss.last(), bytes)
    }
}

/// An if statement reads the source where its parts do.
proof fn lemma_if_reads(
    condition: Expression,
    then_branch: Statement,
    else_branch: Option<Statement>,
    bytes: Seq<u8>,
)
    requires
        reads(condition, bytes),
        statement_reads(then_branch, bytes),
        else_branch matches Some(b) ==> statement_reads(b, bytes),
    ensures
        statement_reads(
            Statement::If {
                condition,
                then_branch: Box::new(then_branch),
                else_branch: match else_branch {
                    Some(b) => Some(Box::new(b)),
                    None => None,
                },
            },
            bytes,
        ),
{
}

/// Two statements read the source where each does.
proof fn lemma_pair_reads(a: Statement, b: Statement, bytes: Seq<u8>)
    requires
        statement_reads(a, bytes),
        statement_reads(b, bytes),
    ensures
        statements_read(seq![a, b], bytes),
{
    assert(seq![a, b].drop_last() =~= seq![a]);
    assert(seq![a].drop_last() =~= Seq::<Statement>::empty());
    assert(statements_read(Seq::<Statement>::empty(), bytes));
    assert(statements_read(seq![a], bytes));
}

/// A function declaration reads the source where its name, its parameters
/// and its body do; its identities are its body's.
proof fn lemma_function_parts<'a>(
    name: Identifier<'a>,
    parameters: Vec<Identifier<'a>>,
    body: Vec<Statement<'a>>,
    bytes: Seq<u8>,
)
    requires
        identifier_reads(name, bytes),
        forall|i: int|
            0 <= i < parameters@.len() ==> identifier_reads(#[trigger] parameters@[i], bytes),
        statements_read(body@, bytes),
    ensures
        statement_reads(
            Statement::FunctionDeclaration {
                declaration: Rc::new(FunctionDeclaration { name, parameters, body }),
            },
            bytes,
        ),
        statement_ids(
            Statement::FunctionDeclaration {
                declaration: Rc::new(FunctionDeclaration { name, parameters, body }),
            },
        ) == statements_ids(body@),
{
}

/// The identities of an optional statement.
pub open spec fn maybe_statement_ids(s: Option<Statement>) -> Seq<usize> {
    match s {
        Some(s) => statement_ids(s),
        None => Seq::empty(),
    }
}

/// The identities of an optional expression.
pub open spec fn maybe_expression_ids(e: Option<Expression>) -> Seq<usize> {
    match e {
        Some(e) => expression_ids(e),
        None => Seq::empty(),
    }
}

/// The loop that a `for` statement stands for: a while loop whose body runs
/// the increment after the loop's own body, in a block after the initializer.
#[verifier::spinoff_prover]
#[verifier::rlimit(40)]
fn for_loop<'a>(
    initializer: Option<Statement<'a>>,
    condition: Expression<'a>,
    increment: Option<Expression<'a>>,
    body: Statement<'a>,
    Ghost(bytes): Ghost<Seq<u8>>,
) -> (r: Statement<'a>)
    requires
        initializer matches Some(s) ==> statement_reads(s, bytes),
        reads(condition, bytes),
        increment matches Some(e) ==> reads(e, bytes),
        statement_reads(body, bytes),
    ensures
        statement_reads(r, bytes),
        statement_ids(r) == maybe_statement_ids(initializer) + (expression_ids(condition) + (
        statement_ids(body) + maybe_expression_ids(increment))),
        statement_nesting(r) == max_nat(
            match initializer {
                Some(s) => statement_nesting(s),
                None => 0,
            },
            statement_nesting(body),
        ),
        statement_shape(r) == for_loop_shape(
            maybe_statement_shape(initializer),
            shape(condition),
            maybe_shape(increment),
            statement_shape(body),
        ),
{
    let ghost body_ids = statement_ids(body);
    let ghost increment_ids = maybe_expression_ids(increment);
    let ghost condition_ids = expression_ids(condition);
    let ghost initializer_ids = maybe_statement_ids(initializer);
    let ghost looped_body = match maybe_shape(increment) {
        Some(e) => StatementShape::Block {
            statements: seq![statement_shape(body), StatementShape::Expression { expression: e }],
        },
        None => statement_shape(body),
    };
    let ghost looped = StatementShape::While {
        condition: shape(condition),
        body: Box::new(looped_body),
    };
    let mut statement = body;
    match increment {
        Some(expression) => {
            let step = Statement::expression(expression);
            assert(statement_ids(step) == increment_ids);
            let mut statements: Vec<Statement<'a>> = Vec::new();
            statements.push(statement);
            statements.push(step);
            proof {
                assert(statements@ =~= seq![body, step]);
                lemma_statement_shapes_pair(body, step);
                lemma_statements_nesting_pair(body, step);
                lemma_statements_ids_pair(body, step);
                lemma_pair_reads(body, step, bytes);
            }
            statement = Statement::block(statements);
        },
        None => {
            assert(body_ids + Seq::<usize>::empty() =~= body_ids);
        },
    }
    assert(statement_ids(statement) == body_ids + increment_ids);
    assert(statement_reads(statement, bytes));
    assert(statement_shape(statement) == looped_body);
    assert(statement_nesting(statement) == statement_nesting(body));
    statement = Statement::while_statement(condition, statement);
    assert(statement_shape(statement) == looped);
    assert(statement_nesting(statement) == statement_nesting(body));
    assert(statement_reads(statement, bytes));
    assert(statement_ids(statement) == condition_ids + (body_ids + increment_ids));
    let ghost whole = statement;
    match initializer {
        Some(first) => {
            let mut statements: Vec<Statement<'a>> = Vec::new();
            statements.push(first);
            statements.push(statement);
            proof {
                assert(statements@ =~= seq![first, whole]);
                lemma_statement_shapes_pair(first, whole);
                lemma_statements_nesting_pair(first, whole);
                lemma_statements_ids_pair(first, whole);
                lemma_pair_reads(first, whole, bytes);
            }
            statement = Statement::block(statements);
        },
        None => {
            assert(Seq::<usize>::empty() + statement_ids(whole) =~= statement_ids(whole));
        },
    }
    statement
}

/// The string literal of the token `token` of `source`, whose value is the
/// text between its quotes, unescaped; an error where an escape is bad.
fn string_literal<'a>(source: &'a str, token: Token, ids: &mut ExpressionIdGenerator) -> (r: Result<
    Expression<'a>,
    ParseError,
>)
    requires
        token.kind == TokenKind::String,
        token_fits(source.spec_bytes(), token),
        old(ids).upcoming() < usize::MAX,
    ensures
        r matches Ok(e) ==> e.range == token.range && reads(e, source.spec_bytes())
            && expression_ids(e) == seq![e.id.value()] && e.id.value() == old(ids).upcoming()
            && final(ids).upcoming() == old(ids).upcoming() + 1,
        r matches Err(e) ==> reported_in(e, source.spec_bytes()) && final(ids).upcoming()
            == old(ids).upcoming(),
        r matches Ok(e) ==> string_kind(source.spec_bytes(), token) matches Ok(kind) && shape(e)
            == (ExpressionShape { id: old(ids).upcoming() as usize, range: token.range, kind }),
        r matches Err(e) ==> string_kind(source.spec_bytes(), token) == Err::<ShapeKind, ParseError>(
            e,
        ),
{
    let range = token.range;
    proof {
        lemma_ascii_boundary(source.spec_bytes(), range.start as int);
        lemma_ascii_boundary(source.spec_bytes(), range.end - 1);
    }
    let raw_start = range.start + 1;
    let raw_end = range.end - 1;
    let raw = slice(source, raw_start, raw_end);
    match LoxString::unescape(raw) {
        Err(error) => {
            let start = error.start + raw_start;
            let end = error.end + raw_start;
            let range = Range { start, end };
            proof {
                let bytes = source.spec_bytes();
                lemma_segment_boundary(bytes, raw_start as int, raw_end as int, error.start as int);
                lemma_segment_boundary(bytes, raw_start as int, raw_end as int, error.end as int);
            }
            Err(ParseError::InvalidEscapeSequence { range })
        },
        Ok(string) => {
            let id = ids.next_id();
            Ok(Expression::literal(id, range, Literal::String(string)))
        },
    }
}

/// A lexer item as a syntax item: a lexical error becomes a syntax error.
pub open spec fn parse_item_of(x: Result<Token, LexError>) -> Result<Token, ParseError> {
    match x {
        Ok(t) => Ok(t),
        Err(e) => Err(ParseError::LexError(e)),
    }
}

/// Whether a held item, where there is one, is the last that the lexer
/// handed out.
#[verifier::opaque]
pub open spec fn held_last(
    items: Seq<Result<Token, LexError>>,
    peeked: Option<Result<Token, ParseError>>,
) -> bool {
    peeked matches Some(x) ==> items.len() > 0 && parse_item_of(items.last()) == x
}

/// Whether `peeked`, or, where it is nothing, nothing more, is what the
/// lexer reads from `from` in `bytes`, ending at `position`.
#[verifier::opaque]
pub open spec fn lookahead_read(
    bytes: Seq<u8>,
    from: int,
    position: int,
    peeked: Option<Result<Token, ParseError>>,
) -> bool {
    &&& peeked is Some ==> from < position && lex(bytes, from).1 == position && as_parse_item(
        lex(bytes, from).0,
    ) == peeked
    &&& peeked is None ==> from == position || lex(bytes, from) == (
        None::<Result<Token, LexError>>,
        position,
    )
}

/// The expression that the token `token` of `source` makes by itself: a
/// variable, a number, `true`, `false` or `nil`; `None` for any other kind
/// of token.
fn atom<'a>(source: &'a str, token: Token, ids: &mut ExpressionIdGenerator) -> (r: Option<
    Expression<'a>,
>)
    requires
        token_fits(source.spec_bytes(), token),
        old(ids).upcoming() < usize::MAX,
    ensures
        r matches Some(e) ==> e.range == token.range && reads(e, source.spec_bytes())
            && expression_ids(e) == seq![e.id.value()] && e.id.value() == old(ids).upcoming()
            && final(ids).upcoming() == old(ids).upcoming() + 1,
        r is None ==> final(ids).upcoming() == old(ids).upcoming(),
        r matches Some(e) ==> atom_kind(source.spec_bytes(), token) matches Some(kind) && shape(e)
            == (ExpressionShape { id: old(ids).upcoming() as usize, range: token.range, kind }),
        r is None ==> atom_kind(source.spec_bytes(), token) is None,
{
    let range = token.range;
    match token.kind {
        TokenKind::Identifier => {
            let name = slice(source, range.start, range.end);
            let id = ids.next_id();
            Some(Expression::variable(id, range, name))
        },
        TokenKind::Number => {
            let text = slice(source, range.start, range.end);
            let id = ids.next_id();
            Some(Expression::literal(id, range, Literal::Number(text)))
        },
        TokenKind::Keyword(Keyword::True) => {
            let id = ids.next_id();
            Some(Expression::literal(id, range, Literal::Boolean(true)))
        },
        TokenKind::Keyword(Keyword::False) => {
            let id = ids.next_id();
            Some(Expression::literal(id, range, Literal::Boolean(false)))
        },
        TokenKind::Keyword(Keyword::Nil) => {
            let id = ids.next_id();
            Some(Expression::literal(id, range, Literal::Nil))
        },
        _ => None,
    }
}

/// A parser over one source text.
#[derive(Debug)]
pub struct Parser<'a> {
    lexer: Lexer<'a>,
    peeked: Option<Result<Token, ParseError>>,
    panic_mode: bool,
    function_declaration_depth: usize,
    ids: ExpressionIdGenerator,
    /// The offset the held token, if any, was read from.
    read_from: usize,
}

/// The token-taking result `Some(Ok(_))` or an error in its place.
fn require(item: Option<Result<Token, ParseError>>) -> (r: Result<Token, ParseError>)
    ensures
        r == match item {
            None => Err(ParseError::UnexpectedEndOfInput),
            Some(result) => result,
        },
{
    match item {
        None => Err(ParseError::UnexpectedEndOfInput),
        Some(result) => result,
    }
}

impl<'a> Parser<'a> {
    /// The UTF-8 bytes of the source.
    pub closed spec fn bytes(&self) -> Seq<u8> {
        self.lexer.bytes()
    }

    /// The source text.
    pub closed spec fn text(&self) -> &'a str {
        self.lexer.text()
    }

    /// The offset the lexer has reached.
    pub closed spec fn position(&self) -> int {
        self.lexer.position()
    }

    /// Where parsing stands, as the grammar sees it: the offset the next
    /// token is read from, the depth and the next identity.
    pub closed spec fn cursor(&self) -> Cursor {
        Cursor {
            pos: self.read_from as int,
            depth: self.depth(),
            next_id: self.next_id(),
            panicking: self.panic_mode,
        }
    }

    /// The token taken from the lexer and not yet consumed, if any.
    pub closed spec fn lookahead(&self) -> Option<Result<Token, ParseError>> {
        self.peeked
    }

    /// Whether errors make the parser skip to the next statement.
    pub closed spec fn panicking(&self) -> bool {
        self.panic_mode
    }

    /// How many function bodies the parser is in.
    pub closed spec fn depth(&self) -> int {
        self.function_declaration_depth as int
    }

    /// The identity the next expression gets.
    pub closed spec fn next_id(&self) -> int {
        self.ids.upcoming()
    }

    /// One for a held token, zero otherwise.
    pub closed spec fn held(&self) -> int {
        if self.peeked is Some {
            1
        } else {
            0
        }
    }

    /// What is left to parse: twice the unread bytes, plus one for a held
    /// token. Every consumed token lowers it.
    pub closed spec fn measure(&self) -> int {
        2 * (self.bytes().len() - self.position()) + self.held()
    }

    /// Tokens consumed and not yet paid for by an expression node: every node
    /// is made after consuming a token of its own, which keeps identities
    /// below the length of the source.
    pub closed spec fn slack(&self) -> int {
        self.position() - self.held() - self.next_id()
    }

    /// Where the next token starts: the held token's start, or, where none
    /// is held, the offset the lexer has reached.
    pub closed spec fn next_start(&self) -> int {
        match self.peeked {
            Some(Ok(t)) => t.range.start as int,
            _ => self.position(),
        }
    }

    /// Nothing is left: no held token and the lexer at the end.
    pub closed spec fn at_end(&self) -> bool {
        self.peeked is None && self.position() == self.bytes().len()
    }

    /// The invariant of the parser.
    pub closed spec fn wf(&self) -> bool {
        &&& self.lexer.wf()
        &&& self.slack() >= 0
        &&& self.depth() <= self.position()
        &&& self.peeked is Some ==> self.position() >= 1
        &&& self.peeked matches Some(Ok(t)) ==> token_fits(self.bytes(), t) && t.range.end
            <= self.position()
        &&& self.peeked matches Some(Err(e)) ==> e is LexError
        &&& 0 <= self.read_from <= self.position()
        &&& lookahead_read(self.bytes(), self.read_from as int, self.position(), self.peeked)
        &&& held_last(self.lexer.items(), self.peeked)
    }

    /// The items the parser's lexer has handed out, in order.
    pub closed spec fn lexed_items(&self) -> Seq<Result<Token, LexError>> {
        self.lexer.items()
    }

    /// What the parser holds of its lexer's run: the items the lexer has
    /// handed out are its run from the start of the source up to where it
    /// stands, and a held item is the last of them. So what `next_token`
    /// hands out, in order, is the lexer's run, each item exactly once.
    pub proof fn lemma_taken(&self)
        requires
            self.wf(),
        ensures
            run_to(self.bytes(), 0, self.position()) == Some(self.lexed_items()),
            self.lookahead() matches Some(x) ==> self.lexed_items().len() > 0 && parse_item_of(
                self.lexed_items().last(),
            ) == x,
    {
        reveal(held_last);
        self.lexer.lemma_history();
    }

    /// The items the parser has taken from the lexer and consumed, as syntax
    /// items: all that the lexer handed out but a held one.
    pub open spec fn taken(&self) -> Seq<Result<Token, ParseError>> {
        let items = self.lexed_items().map_values(|x: Result<Token, LexError>| parse_item_of(x));
        if self.lookahead() is Some {
            items.drop_last()
        } else {
            items
        }
    }

    /// How the parser's state moves on in every parsing step: the source
    /// and the depth stay, the measure does not grow and, unless the input is
    /// used up, shrinks; the slack does not shrink.
    pub closed spec fn steps_to(&self, next: &Self) -> bool {
        &&& next.wf()
        &&& next.bytes() == self.bytes()
        &&& next.text() == self.text()
        &&& next.depth() == self.depth()
        &&& next.measure() <= self.measure()
        &&& next.slack() >= self.slack()
        &&& next.cursor().pos >= self.cursor().pos
        &&& next.next_start() >= self.next_start()
        &&& next.next_id() >= self.next_id()
    }

    /// How the parser's state moves on in parsing a statement: as in
    /// `steps_to`, except that the depth may grow, which it does where a
    /// function body fails to parse.
    pub closed spec fn moves_to(&self, next: &Self) -> bool {
        &&& next.wf()
        &&& next.bytes() == self.bytes()
        &&& next.text() == self.text()
        &&& next.depth() >= self.depth()
        &&& next.measure() <= self.measure()
        &&& next.slack() >= self.slack()
        &&& next.cursor().pos >= self.cursor().pos
        &&& next.next_start() >= self.next_start()
        &&& next.next_id() >= self.next_id()
    }

    /// How the parser's state moves on in parsing the rest of a function
    /// body: as in `moves_to`, except that the depth may drop by the one
    /// level that the body raised it.
    pub closed spec fn leaves_to(&self, next: &Self) -> bool {
        &&& next.wf()
        &&& next.bytes() == self.bytes()
        &&& next.text() == self.text()
        &&& next.depth() >= self.depth() - 1
        &&& next.measure() <= self.measure()
        &&& next.slack() >= self.slack()
        &&& next.next_id() >= self.next_id()
        &&& next.cursor().pos >= self.cursor().pos
        &&& next.next_start() >= self.next_start()
    }

    /// `moves_to`, and the measure shrinks unless nothing is left.
    pub open spec fn progresses_to(&self, next: &Self) -> bool {
        &&& self.moves_to(next)
        &&& (next.measure() < self.measure() || next.at_end())
    }

    /// `steps_to`, and the measure shrinks unless nothing is left.
    pub open spec fn advances_to(&self, next: &Self) -> bool {
        &&& self.steps_to(next)
        &&& (next.measure() < self.measure() || next.at_end())
    }

    /// A parser at the start of `source`.
    pub fn new(source: &'a str) -> (parser: Self)
        ensures
            parser.wf(),
            parser.text() == source,
            parser.bytes() == source.spec_bytes(),
            parser.position() == 0,
            parser.lookahead() is None,
            parser.panicking(),
            parser.depth() == 0,
            parser.next_id() == 0,
            parser.cursor() == start(),
            parser.taken() == Seq::<Result<Token, ParseError>>::empty(),
            parser.lexed_items() == Seq::<Result<Token, LexError>>::empty(),
    {
        let lexer = Lexer::new(source);
        let peeked = None;
        let panic_mode = true;
        let function_declaration_depth: usize = 0;
        let ids = ExpressionIdGenerator::new();
        let read_from: usize = 0;
        let parser = Self { lexer, peeked, panic_mode, function_declaration_depth, ids, read_from };
        proof {
            reveal(lookahead_read);
            reveal(held_last);
        }
        parser
    }

    /// The source text.
    pub fn source(&self) -> (source: &'a str)
        ensures
            source == self.text(),
            source.spec_bytes() == self.bytes(),
    {
        self.lexer.source()
    }

    /// The next token, consumed, where it is of kind `kind`; an error
    /// otherwise.
    fn expect(&mut self, kind: TokenKind) -> (r: Result<Token, ParseError>)
        requires
            old(self).wf(),
        ensures
            old(self).advances_to(final(self)),
            final(self).panicking() == old(self).panicking(),
            final(self).next_id() == old(self).next_id(),
            r matches Err(e) ==> reported_in(e, final(self).bytes()),
            r matches Ok(t) ==> {
                &&& t.kind == kind
                &&& token_fits(final(self).bytes(), t)
                &&& old(self).next_start() <= t.range.start
                &&& t.range.end <= final(self).next_start()
                &&& final(self).measure() < old(self).measure()
                &&& final(self).slack() > old(self).slack()
                &&& final(self).lookahead() is None
            },
            r matches Ok(t) ==> g_expect(old(self).bytes(), old(self).cursor(), kind)
                == Ok::<_, Failure>(
                (t, final(self).cursor()),
            ),
            r matches Err(e) ==> g_expect(old(self).bytes(), old(self).cursor(), kind)
                == Err::<(Token, Cursor), Failure>(
                Failure { error: e, at: final(self).cursor() },
            ),
            r is Ok ==> beyond(old(self).bytes(), old(self).cursor(), final(self).cursor()),
            peek(old(self).bytes(), old(self).cursor()) is Some ==> beyond(
                old(self).bytes(),
                old(self).cursor(),
                final(self).cursor(),
            ),
    {
        let token = require(self.next_token())?;
        if token.kind != kind {
            return Err(ParseError::UnexpectedToken(token));
        }
        Ok(token)
    }

    /// The next token or error without consuming it; `None` at the end.
    fn peek_token(&mut self) -> (r: Option<Result<Token, ParseError>>)
        requires
            old(self).wf(),
        ensures
            old(self).steps_to(final(self)),
            final(self).panicking() == old(self).panicking(),
            final(self).next_id() == old(self).next_id(),
            r == final(self).lookahead(),
            old(self).lookahead() is Some || old(self).at_end() ==> *final(self) == *old(self),
            final(self).taken() == old(self).taken(),
            r is Some ==> final(self).lookahead() is Some,
            r matches Some(Ok(t)) ==> t.range.start >= old(self).next_start()
                && final(self).next_start() == t.range.start,
            r matches Some(Err(e)) ==> e is LexError,
            old(self).lookahead() is None ==> r == as_parse_item(
                lex(old(self).bytes(), old(self).position()).0,
            ) && final(self).position() == lex(old(self).bytes(), old(self).position()).1,
            r is None ==> final(self).at_end(),
            r == as_parse_item(peek(old(self).bytes(), old(self).cursor())),
            final(self).cursor() == old(self).cursor(),
    {
        proof {
            reveal(lookahead_read);
            reveal(held_last);
        }
        if self.peeked.is_none() {
            proof {
                lemma_lex_exhausted(self.bytes(), self.read_from as int);
            }
            let ghost before = self.lexer.items();
            let item = self.lexer.next();
            self.peeked = match item {
                None => None,
                Some(Ok(token)) => Some(Ok(token)),
                Some(Err(error)) => Some(Err(ParseError::LexError(error))),
            };
            proof {
                let f = |x: Result<Token, LexError>| parse_item_of(x);
                if let Some(x) = item {
                    assert(before.push(x).map_values(f).drop_last() =~= before.map_values(f));
                }
            }
        }
        self.peeked
    }

    /// Consumes the next token or error; `None` at the end.
    fn next_token(&mut self) -> (r: Option<Result<Token, ParseError>>)
        requires
            old(self).wf(),
        ensures
            old(self).steps_to(final(self)),
            final(self).panicking() == old(self).panicking(),
            final(self).next_id() == old(self).next_id(),
            final(self).lookahead() is None,
            old(self).lookahead() is Some ==> r == old(self).lookahead() && final(self).position()
                == old(self).position(),
            old(self).lookahead() is None ==> r == as_parse_item(
                lex(old(self).bytes(), old(self).position()).0,
            ) && final(self).position() == lex(old(self).bytes(), old(self).position()).1,
            r is Some ==> final(self).measure() < old(self).measure() && final(self).slack()
                > old(self).slack(),
            r is None ==> final(self).at_end(),
            r matches Some(Ok(t)) ==> token_fits(final(self).bytes(), t) && t.range.end
                <= final(self).position() && t.range.start >= old(self).next_start(),
            final(self).next_start() == final(self).position(),
            r matches Some(Err(e)) ==> e is LexError,
            r == as_parse_item(peek(old(self).bytes(), old(self).cursor())),
            final(self).cursor() == advance(old(self).bytes(), old(self).cursor()),
            r is Some ==> old(self).cursor().pos < final(self).cursor().pos,
            final(self).cursor().pos <= final(self).bytes().len(),
            r matches Some(x) ==> final(self).taken() == old(self).taken().push(x),
            r is None ==> final(self).taken() == old(self).taken(),
    {
        proof {
            reveal(lookahead_read);
            reveal(held_last);
        }
        let ghost f = |x: Result<Token, LexError>| parse_item_of(x);
        let ghost before = self.lexer.items();
        if self.peeked.is_none() {
            proof {
                lemma_lex_exhausted(self.bytes(), self.read_from as int);
            }
            let item = self.lexer.next();
            self.read_from = self.lexer.offset();
            proof {
                if let Some(x) = item {
                    assert(before.push(x).map_values(f) =~= before.map_values(f).push(parse_item_of(x)));
                }
            }
            match item {
                None => None,
                Some(Ok(token)) => Some(Ok(token)),
                Some(Err(error)) => Some(Err(ParseError::LexError(error))),
            }
        } else {
            let item = self.peeked;
            self.peeked = None;
            self.read_from = self.lexer.offset();
            proof {
                assert(before.map_values(f) =~= before.map_values(f).drop_last().push(
                    parse_item_of(before.last()),
                ));
            }
            item
        }
    }
}

impl<'a> Parser<'a> {
    /// An expression.
    #[verifier::spinoff_prover]
    fn expression(&mut self) -> (r: Result<Expression<'a>, ParseError>)
        requires
            old(self).wf(),
        ensures
            r matches Err(e) ==> reported_in(e, final(self).bytes()),
            old(self).advances_to(final(self)),
            r matches Ok(e) ==> covers(expression_ids(e), old(self).next_id(), final(self).next_id()),
            r matches Ok(e) ==> reads_between(
                e,
                final(self).bytes(),
                old(self).next_start(),
                final(self).next_start(),
            ),
            r matches Ok(e) ==> g_expression(old(self).bytes(), old(self).cursor())
                == Ok::<_, Failure>(
                (shape(e), final(self).cursor()),
            ),
            r matches Err(e) ==> g_expression(old(self).bytes(), old(self).cursor())
                == Err::<(ExpressionShape, Cursor), Failure>(
                Failure { error: e, at: final(self).cursor() },
            ),
            peek(old(self).bytes(), old(self).cursor()) is Some ==> beyond(
                old(self).bytes(),
                old(self).cursor(),
                final(self).cursor(),
            ),
        decreases old(self).measure(), 11int,
    {
        self.assignment()
    }

    /// An assignment, or an expression of higher precedence.
    #[verifier::spinoff_prover]
    fn assignment(&mut self) -> (r: Result<Expression<'a>, ParseError>)
        requires
            old(self).wf(),
        ensures
            r matches Err(e) ==> reported_in(e, final(self).bytes()),
            old(self).advances_to(final(self)),
            r matches Ok(e) ==> covers(expression_ids(e), old(self).next_id(), final(self).next_id()),
            r matches Ok(e) ==> reads_between(
                e,
                final(self).bytes(),
                old(self).next_start(),
                final(self).next_start(),
            ),
            r matches Ok(e) ==> g_assignment(old(self).bytes(), old(self).cursor())
                == Ok::<_, Failure>(
                (shape(e), final(self).cursor()),
            ),
            r matches Err(e) ==> g_assignment(old(self).bytes(), old(self).cursor())
                == Err::<(ExpressionShape, Cursor), Failure>(
                Failure { error: e, at: final(self).cursor() },
            ),
            peek(old(self).bytes(), old(self).cursor()) is Some ==> beyond(
                old(self).bytes(),
                old(self).cursor(),
                final(self).cursor(),
            ),
        decreases old(self).measure(), 10int,
    {
        let lhs = self.or()?;
        let token = match self.peek_token() {
            None => {
                return Ok(lhs);
            },
            Some(Err(error)) => {
                self.next_token();
                return Err(error);
            },
            Some(Ok(token)) => token,
        };
        if token.kind != TokenKind::Equal {
            return Ok(lhs);
        }
        self.next_token();
        let name = match lhs.kind {
            ExpressionKind::Variable { name } => name,
            _ => {
                self.panic_mode = false;
                let range = lhs.range;
                return Err(ParseError::InvalidAssignmentTarget { range });
            },
        };
        let ghost mid = self.next_id();
        let value = self.assignment()?;
        let start = lhs.range.start;
        let end = value.range.end;
        let range = Range { start, end };
        let id = self.ids.next_id();
        proof {
            lemma_covers_single(id.value());
            lemma_covers_join(
                expression_ids(value),
                seq![id.value()],
                mid,
                id.value() as int,
                id.value() + 1,
            );
            lemma_covers_widen(
                expression_ids(value) + seq![id.value()],
                mid,
                id.value() + 1,
                old(self).next_id(),
                id.value() + 1,
            );
        }
        Ok(Expression::assignment(id, range, name, value))
    }

    /// A disjunction, or an expression of higher precedence.
    #[verifier::spinoff_prover]
    fn or(&mut self) -> (r: Result<Expression<'a>, ParseError>)
        requires
            old(self).wf(),
        ensures
            r matches Err(e) ==> reported_in(e, final(self).bytes()),
            old(self).advances_to(final(self)),
            r matches Ok(e) ==> covers(expression_ids(e), old(self).next_id(), final(self).next_id()),
            r matches Ok(e) ==> reads_between(
                e,
                final(self).bytes(),
                old(self).next_start(),
                final(self).next_start(),
            ),
            r matches Ok(e) ==> g_level(old(self).bytes(), old(self).cursor(), 6)
                == Ok::<_, Failure>(
                (shape(e), final(self).cursor()),
            ),
            r matches Err(e) ==> g_level(old(self).bytes(), old(self).cursor(), 6)
                == Err::<(ExpressionShape, Cursor), Failure>(
                Failure { error: e, at: final(self).cursor() },
            ),
            peek(old(self).bytes(), old(self).cursor()) is Some ==> beyond(
                old(self).bytes(),
                old(self).cursor(),
                final(self).cursor(),
            ),
        decreases old(self).measure(), 9int,
    {
        let mut lhs = self.and()?;
        loop
            invariant
                peek(old(self).bytes(), old(self).cursor()) is Some ==> beyond(
                    old(self).bytes(),
                    old(self).cursor(),
                    self.cursor(),
                ),
                g_level(old(self).bytes(), old(self).cursor(), 6) == g_level_tail(
                    self.bytes(),
                    self.cursor(),
                    6,
                    shape(lhs),
                ),
                old(self).advances_to(self),
                covers(expression_ids(lhs), old(self).next_id(), self.next_id()),
                reads_between(lhs, self.bytes(), old(self).next_start(), self.next_start()),
            decreases self.measure(),
        {
            let token = match self.peek_token() {
                None => {
                    return Ok(lhs);
                },
                Some(Err(error)) => {
                    self.next_token();
                    return Err(error);
                },
                Some(Ok(token)) => token,
            };
            let operator = match token.kind {
                TokenKind::Keyword(Keyword::Or) => Some(LogicalOperator::Or),
                _ => None,
            };
            let operator = match operator {
                None => {
                    return Ok(lhs);
                },
                Some(operator) => operator,
            };
            self.next_token();
            let ghost mid = self.next_id();
            let rhs = self.and()?;
            let start = lhs.range.start;
            let end = rhs.range.end;
            let range = Range { start, end };
            let id = self.ids.next_id();
            proof {
                lemma_covers_join(
                    expression_ids(lhs),
                    expression_ids(rhs),
                    old(self).next_id(),
                    mid,
                    id.value() as int,
                );
                lemma_covers_single(id.value());
                lemma_covers_join(
                    expression_ids(lhs) + expression_ids(rhs),
                    seq![id.value()],
                    old(self).next_id(),
                    id.value() as int,
                    id.value() + 1,
                );
            }
            lhs = Expression::logical(id, range, operator, lhs, rhs);
        }
    }

    /// A conjunction, or an expression of higher precedence.
    #[verifier::spinoff_prover]
    fn and(&mut self) -> (r: Result<Expression<'a>, ParseError>)
        requires
            old(self).wf(),
        ensures
            r matches Err(e) ==> reported_in(e, final(self).bytes()),
            old(self).advances_to(final(self)),
            r matches Ok(e) ==> covers(expression_ids(e), old(self).next_id(), final(self).next_id()),
            r matches Ok(e) ==> reads_between(
                e,
                final(self).bytes(),
                old(self).next_start(),
                final(self).next_start(),
            ),
            r matches Ok(e) ==> g_level(old(self).bytes(), old(self).cursor(), 5)
                == Ok::<_, Failure>(
                (shape(e), final(self).cursor()),
            ),
            r matches Err(e) ==> g_level(old(self).bytes(), old(self).cursor(), 5)
                == Err::<(ExpressionShape, Cursor), Failure>(
                Failure { error: e, at: final(self).cursor() },
            ),
            peek(old(self).bytes(), old(self).cursor()) is Some ==> beyond(
                old(self).bytes(),
                old(self).cursor(),
                final(self).cursor(),
            ),
        decreases old(self).measure(), 8int,
    {
        let mut lhs = self.equality()?;
        loop
            invariant
                peek(old(self).bytes(), old(self).cursor()) is Some ==> beyond(
                    old(self).bytes(),
                    old(self).cursor(),
                    self.cursor(),
                ),
                g_level(old(self).bytes(), old(self).cursor(), 5) == g_level_tail(
                    self.bytes(),
                    self.cursor(),
                    5,
                    shape(lhs),
                ),
                old(self).advances_to(self),
                covers(expression_ids(lhs), old(self).next_id(), self.next_id()),
                reads_between(lhs, self.bytes(), old(self).next_start(), self.next_start()),
            decreases self.measure(),
        {
            let token = match self.peek_token() {
                None => {
                    return Ok(lhs);
                },
                Some(Err(error)) => {
                    self.next_token();
                    return Err(error);
                },
                Some(Ok(token)) => token,
            };
            let operator = match token.kind {
                TokenKind::Keyword(Keyword::And) => Some(LogicalOperator::And),
                _ => None,
            };
            let operator = match operator {
                None => {
                    return Ok(lhs);
                },
                Some(operator) => operator,
            };
            self.next_token();
            let ghost mid = self.next_id();
            let rhs = self.equality()?;
            let start = lhs.range.start;
            let end = rhs.range.end;
            let range = Range { start, end };
            let id = self.ids.next_id();
            proof {
                lemma_covers_join(
                    expression_ids(lhs),
                    expression_ids(rhs),
                    old(self).next_id(),
                    mid,
                    id.value() as int,
                );
                lemma_covers_single(id.value());
                lemma_covers_join(
                    expression_ids(lhs) + expression_ids(rhs),
                    seq![id.value()],
                    old(self).next_id(),
                    id.value() as int,
                    id.value() + 1,
                );
            }
            lhs = Expression::logical(id, range, operator, lhs, rhs);
        }
    }

    /// An equality test, or an expression of higher precedence.
    #[verifier::spinoff_prover]
    fn equality(&mut self) -> (r: Result<Expression<'a>, ParseError>)
        requires
            old(self).wf(),
        ensures
            r matches Err(e) ==> reported_in(e, final(self).bytes()),
            old(self).advances_to(final(self)),
            r matches Ok(e) ==> covers(expression_ids(e), old(self).next_id(), final(self).next_id()),
            r matches Ok(e) ==> reads_between(
                e,
                final(self).bytes(),
                old(self).next_start(),
                final(self).next_start(),
            ),
            r matches Ok(e) ==> g_level(old(self).bytes(), old(self).cursor(), 4)
                == Ok::<_, Failure>(
                (shape(e), final(self).cursor()),
            ),
            r matches Err(e) ==> g_level(old(self).bytes(), old(self).cursor(), 4)
                == Err::<(ExpressionShape, Cursor), Failure>(
                Failure { error: e, at: final(self).cursor() },
            ),
            peek(old(self).bytes(), old(self).cursor()) is Some ==> beyond(
                old(self).bytes(),
                old(self).cursor(),
                final(self).cursor(),
            ),
        decreases old(self).measure(), 7int,
    {
        let mut lhs = self.comparison()?;
        loop
            invariant
                peek(old(self).bytes(), old(self).cursor()) is Some ==> beyond(
                    old(self).bytes(),
                    old(self).cursor(),
                    self.cursor(),
                ),
                g_level(old(self).bytes(), old(self).cursor(), 4) == g_level_tail(
                    self.bytes(),
                    self.cursor(),
                    4,
                    shape(lhs),
                ),
                old(self).advances_to(self),
                covers(expression_ids(lhs), old(self).next_id(), self.next_id()),
                reads_between(lhs, self.bytes(), old(self).next_start(), self.next_start()),
            decreases self.measure(),
        {
            let token = match self.peek_token() {
                None => {
                    return Ok(lhs);
                },
                Some(Err(error)) => {
                    self.next_token();
                    return Err(error);
                },
                Some(Ok(token)) => token,
            };
            let operator = match token.kind {
                TokenKind::EqualEqual => Some(BinaryOperator::Equal),
                TokenKind::BangEqual => Some(BinaryOperator::NotEqual),
                _ => None,
            };
            let operator = match operator {
                None => {
                    return Ok(lhs);
                },
                Some(operator) => operator,
            };
            self.next_token();
            let ghost mid = self.next_id();
            let rhs = self.comparison()?;
            let start = lhs.range.start;
            let end = rhs.range.end;
            let range = Range { start, end };
            let id = self.ids.next_id();
            proof {
                lemma_covers_join(
                    expression_ids(lhs),
                    expression_ids(rhs),
                    old(self).next_id(),
                    mid,
                    id.value() as int,
                );
                lemma_covers_single(id.value());
                lemma_covers_join(
                    expression_ids(lhs) + expression_ids(rhs),
                    seq![id.value()],
                    old(self).next_id(),
                    id.value() as int,
                    id.value() + 1,
                );
            }
            lhs = Expression::binary(id, range, operator, lhs, rhs);
        }
    }

    /// A comparison, or an expression of higher precedence.
    #[verifier::spinoff_prover]
    fn comparison(&mut self) -> (r: Result<Expression<'a>, ParseError>)
        requires
            old(self).wf(),
        ensures
            r matches Err(e) ==> reported_in(e, final(self).bytes()),
            old(self).advances_to(final(self)),
            r matches Ok(e) ==> covers(expression_ids(e), old(self).next_id(), final(self).next_id()),
            r matches Ok(e) ==> reads_between(
                e,
                final(self).bytes(),
                old(self).next_start(),
                final(self).next_start(),
            ),
            r matches Ok(e) ==> g_level(old(self).bytes(), old(self).cursor(), 3)
                == Ok::<_, Failure>(
                (shape(e), final(self).cursor()),
            ),
            r matches Err(e) ==> g_level(old(self).bytes(), old(self).cursor(), 3)
                == Err::<(ExpressionShape, Cursor), Failure>(
                Failure { error: e, at: final(self).cursor() },
            ),
            peek(old(self).bytes(), old(self).cursor()) is Some ==> beyond(
                old(self).bytes(),
                old(self).cursor(),
                final(self).cursor(),
            ),
        decreases old(self).measure(), 6int,
    {
        let mut lhs = self.term()?;
        loop
            invariant
                peek(old(self).bytes(), old(self).cursor()) is Some ==> beyond(
                    old(self).bytes(),
                    old(self).cursor(),
                    self.cursor(),
                ),
                g_level(old(self).bytes(), old(self).cursor(), 3) == g_level_tail(
                    self.bytes(),
                    self.cursor(),
                    3,
                    shape(lhs),
                ),
                old(self).advances_to(self),
                covers(expression_ids(lhs), old(self).next_id(), self.next_id()),
                reads_between(lhs, self.bytes(), old(self).next_start(), self.next_start()),
            decreases self.measure(),
        {
            let token = match self.peek_token() {
                None => {
                    return Ok(lhs);
                },
                Some(Err(error)) => {
                    self.next_token();
                    return Err(error);
                },
                Some(Ok(token)) => token,
            };
            let operator = match token.kind {
                TokenKind::Less => Some(BinaryOperator::Less),
                TokenKind::LessEqual => Some(BinaryOperator::LessEqual),
                TokenKind::Greater => Some(BinaryOperator::Greater),
                TokenKind::GreaterEqual => Some(BinaryOperator::GreaterEqual),
                _ => None,
            };
            let operator = match operator {
                None => {
                    return Ok(lhs);
                },
                Some(operator) => operator,
            };
            self.next_token();
            let ghost mid = self.next_id();
            let rhs = self.term()?;
            let start = lhs.range.start;
            let end = rhs.range.end;
            let range = Range { start, end };
            let id = self.ids.next_id();
            proof {
                lemma_covers_join(
                    expression_ids(lhs),
                    expression_ids(rhs),
                    old(self).next_id(),
                    mid,
                    id.value() as int,
                );
                lemma_covers_single(id.value());
                lemma_covers_join(
                    expression_ids(lhs) + expression_ids(rhs),
                    seq![id.value()],
                    old(self).next_id(),
                    id.value() as int,
                    id.value() + 1,
                );
            }
            lhs = Expression::binary(id, range, operator, lhs, rhs);
        }
    }

    /// A sum or difference, or an expression of higher precedence.
    #[verifier::spinoff_prover]
    fn term(&mut self) -> (r: Result<Expression<'a>, ParseError>)
        requires
            old(self).wf(),
        ensures
            r matches Err(e) ==> reported_in(e, final(self).bytes()),
            old(self).advances_to(final(self)),
            r matches Ok(e) ==> covers(expression_ids(e), old(self).next_id(), final(self).next_id()),
            r matches Ok(e) ==> reads_between(
                e,
                final(self).bytes(),
                old(self).next_start(),
                final(self).next_start(),
            ),
            r matches Ok(e) ==> g_level(old(self).bytes(), old(self).cursor(), 2)
                == Ok::<_, Failure>(
                (shape(e), final(self).cursor()),
            ),
            r matches Err(e) ==> g_level(old(self).bytes(), old(self).cursor(), 2)
                == Err::<(ExpressionShape, Cursor), Failure>(
                Failure { error: e, at: final(self).cursor() },
            ),
            peek(old(self).bytes(), old(self).cursor()) is Some ==> beyond(
                old(self).bytes(),
                old(self).cursor(),
                final(self).cursor(),
            ),
        decreases old(self).measure(), 5int,
    {
        let mut lhs = self.factor()?;
        loop
            invariant
                peek(old(self).bytes(), old(self).cursor()) is Some ==> beyond(
                    old(self).bytes(),
                    old(self).cursor(),
                    self.cursor(),
                ),
                g_level(old(self).bytes(), old(self).cursor(), 2) == g_level_tail(
                    self.bytes(),
                    self.cursor(),
                    2,
                    shape(lhs),
                ),
                old(self).advances_to(self),
                covers(expression_ids(lhs), old(self).next_id(), self.next_id()),
                reads_between(lhs, self.bytes(), old(self).next_start(), self.next_start()),
            decreases self.measure(),
        {
            let token = match self.peek_token() {
                None => {
                    return Ok(lhs);
                },
                Some(Err(error)) => {
                    self.next_token();
                    return Err(error);
                },
                Some(Ok(token)) => token,
            };
            let operator = match token.kind {
                TokenKind::Plus => Some(BinaryOperator::Add),
                TokenKind::Minus => Some(BinaryOperator::Sub),
                _ => None,
            };
            let operator = match operator {
                None => {
                    return Ok(lhs);
                },
                Some(operator) => operator,
            };
            self.next_token();
            let ghost mid = self.next_id();
            let rhs = self.factor()?;
            let start = lhs.range.start;
            let end = rhs.range.end;
            let range = Range { start, end };
            let id = self.ids.next_id();
            proof {
                lemma_covers_join(
                    expression_ids(lhs),
                    expression_ids(rhs),
                    old(self).next_id(),
                    mid,
                    id.value() as int,
                );
                lemma_covers_single(id.value());
                lemma_covers_join(
                    expression_ids(lhs) + expression_ids(rhs),
                    seq![id.value()],
                    old(self).next_id(),
                    id.value() as int,
                    id.value() + 1,
                );
            }
            lhs = Expression::binary(id, range, operator, lhs, rhs);
        }
    }

    /// A product or quotient, or an expression of higher precedence.
    #[verifier::spinoff_prover]
    fn factor(&mut self) -> (r: Result<Expression<'a>, ParseError>)
        requires
            old(self).wf(),
        ensures
            r matches Err(e) ==> reported_in(e, final(self).bytes()),
            old(self).advances_to(final(self)),
            r matches Ok(e) ==> covers(expression_ids(e), old(self).next_id(), final(self).next_id()),
            r matches Ok(e) ==> reads_between(
                e,
                final(self).bytes(),
                old(self).next_start(),
                final(self).next_start(),
            ),
            r matches Ok(e) ==> g_level(old(self).bytes(), old(self).cursor(), 1)
                == Ok::<_, Failure>(
                (shape(e), final(self).cursor()),
            ),
            r matches Err(e) ==> g_level(old(self).bytes(), old(self).cursor(), 1)
                == Err::<(ExpressionShape, Cursor), Failure>(
                Failure { error: e, at: final(self).cursor() },
            ),
            peek(old(self).bytes(), old(self).cursor()) is Some ==> beyond(
                old(self).bytes(),
                old(self).cursor(),
                final(self).cursor(),
            ),
        decreases old(self).measure(), 4int,
    {
        let ghost bytes = self.bytes();
        let mut lhs = self.unary()?;
        assert(g_level(bytes, old(self).cursor(), 0) == g_unary(bytes, old(self).cursor()));
        assert(not_before(bytes, old(self).cursor(), self.cursor()));
        loop
            invariant
                peek(old(self).bytes(), old(self).cursor()) is Some ==> beyond(
                    old(self).bytes(),
                    old(self).cursor(),
                    self.cursor(),
                ),
                self.bytes() == bytes,
                g_level(old(self).bytes(), old(self).cursor(), 1) == g_level_tail(
                    self.bytes(),
                    self.cursor(),
                    1,
                    shape(lhs),
                ),
                old(self).advances_to(self),
                covers(expression_ids(lhs), old(self).next_id(), self.next_id()),
                reads_between(lhs, self.bytes(), old(self).next_start(), self.next_start()),
            decreases self.measure(),
        {
            let token = match self.peek_token() {
                None => {
                    return Ok(lhs);
                },
                Some(Err(error)) => {
                    self.next_token();
                    return Err(error);
                },
                Some(Ok(token)) => token,
            };
            let operator = match token.kind {
                TokenKind::Star => Some(BinaryOperator::Mul),
                TokenKind::Slash => Some(BinaryOperator::Div),
                _ => None,
            };
            let operator = match operator {
                None => {
                    return Ok(lhs);
                },
                Some(operator) => operator,
            };
            self.next_token();
            let ghost mid = self.next_id();
            let ghost c2 = self.cursor();
            assert(g_level(bytes, c2, 0) == g_unary(bytes, c2));
            let rhs = self.unary()?;
            let start = lhs.range.start;
            let end = rhs.range.end;
            let range = Range { start, end };
            let id = self.ids.next_id();
            proof {
                lemma_covers_join(
                    expression_ids(lhs),
                    expression_ids(rhs),
                    old(self).next_id(),
                    mid,
                    id.value() as int,
                );
                lemma_covers_single(id.value());
                lemma_covers_join(
                    expression_ids(lhs) + expression_ids(rhs),
                    seq![id.value()],
                    old(self).next_id(),
                    id.value() as int,
                    id.value() + 1,
                );
            }
            lhs = Expression::binary(id, range, operator, lhs, rhs);
        }
    }


    /// The next token, left unconsumed, where it is a token; an error
    /// otherwise, consumed where it came from the lexer.
    fn peek_ok(&mut self) -> (r: Result<Token, ParseError>)
        requires
            old(self).wf(),
        ensures
            final(self).panicking() == old(self).panicking(),
            final(self).next_id() == old(self).next_id(),
            r matches Ok(t) ==> old(self).steps_to(final(self)) && final(self).lookahead() == Some(
                Ok::<Token, ParseError>(t),
            ) && token_fits(final(self).bytes(), t) && t.range.start >= old(self).next_start()
                && final(self).next_start() == t.range.start,
            r is Err ==> old(self).advances_to(final(self)),
            r matches Err(e) ==> reported_in(e, final(self).bytes()),
            r matches Ok(t) ==> g_peek(old(self).bytes(), old(self).cursor()) == Ok::<Token, Failure>(t)
                && final(self).cursor() == old(self).cursor(),
            r matches Err(e) ==> g_peek(old(self).bytes(), old(self).cursor())
                == Err::<Token, Failure>(
                Failure { error: e, at: final(self).cursor() },
            ),
            r is Err && peek(old(self).bytes(), old(self).cursor()) is Some ==> beyond(
                old(self).bytes(),
                old(self).cursor(),
                final(self).cursor(),
            ),
    {
        match self.peek_token() {
            Some(Ok(token)) => Ok(token),
            _ => require(self.next_token()),
        }
    }

    /// A prefix operation, or a call or primary expression.
    #[verifier::spinoff_prover]
    fn unary(&mut self) -> (r: Result<Expression<'a>, ParseError>)
        requires
            old(self).wf(),
        ensures
            r matches Err(e) ==> reported_in(e, final(self).bytes()),
            old(self).advances_to(final(self)),
            r matches Ok(e) ==> covers(expression_ids(e), old(self).next_id(), final(self).next_id()),
            r matches Ok(e) ==> reads_between(
                e,
                final(self).bytes(),
                old(self).next_start(),
                final(self).next_start(),
            ),
            r matches Ok(e) ==> g_unary(old(self).bytes(), old(self).cursor()) == Ok::<_, Failure>(
                (shape(e), final(self).cursor()),
            ),
            r matches Err(e) ==> g_unary(old(self).bytes(), old(self).cursor())
                == Err::<(ExpressionShape, Cursor), Failure>(
                Failure { error: e, at: final(self).cursor() },
            ),
            peek(old(self).bytes(), old(self).cursor()) is Some ==> beyond(
                old(self).bytes(),
                old(self).cursor(),
                final(self).cursor(),
            ),
        decreases old(self).measure(), 3int,
    {
        let token = self.peek_ok()?;
        let operator = match token.kind {
            TokenKind::Minus => Some(UnaryOperator::Neg),
            TokenKind::Bang => Some(UnaryOperator::Not),
            _ => None,
        };
        let operator = match operator {
            None => {
                return self.call();
            },
            Some(operator) => operator,
        };
        let start = token.range.start;
        self.next_token();
        let rhs = self.unary()?;
        let end = rhs.range.end;
        let range = Range { start, end };
        let id = self.ids.next_id();
        proof {
            lemma_covers_single(id.value());
            lemma_covers_join(
                expression_ids(rhs),
                seq![id.value()],
                old(self).next_id(),
                id.value() as int,
                id.value() + 1,
            );
        }
        Ok(Expression::unary(id, range, operator, rhs))
    }

    /// The arguments of a call whose callee starts at `start`, after the
    /// opening parenthesis and up to the closing one, which is left
    /// unconsumed; at most `MAX_ARITY` of them.
    #[verifier::spinoff_prover]
    fn arguments(&mut self, start: usize) -> (r: Result<Vec<Expression<'a>>, ParseError>)
        requires
            old(self).wf(),
            start <= old(self).next_start(),
            is_char_boundary(old(self).bytes(), start as int),
        ensures
            r matches Err(e) ==> reported_in(e, final(self).bytes()),
            old(self).steps_to(final(self)),
            r matches Ok(arguments) ==> covers(
                expressions_ids(arguments@),
                old(self).next_id(),
                final(self).next_id(),
            ) && all_read(arguments@, final(self).bytes()),
            r matches Ok(arguments) ==> g_arguments(old(self).bytes(), old(self).cursor(), start)
                == Ok::<_, Failure>(
                (shapes(arguments@), final(self).cursor()),
            ),
            r matches Err(e) ==> g_arguments(old(self).bytes(), old(self).cursor(), start)
                == Err::<(Seq<ExpressionShape>, Cursor), Failure>(
                Failure { error: e, at: final(self).cursor() },
            ),
        decreases old(self).measure(), 12int,
    {
        let mut arguments: Vec<Expression<'a>> = Vec::new();
        proof {
            lemma_covers_empty(old(self).next_id());
        }
        let ghost bytes = self.bytes();
        let token = self.peek_ok()?;
        if token.kind == TokenKind::RParen {
            return Ok(arguments);
        }
        let mut more = true;
        while more
            invariant
                self.bytes() == bytes,
                more ==> g_arguments(bytes, old(self).cursor(), start) == g_arguments_from(
                    bytes,
                    self.cursor(),
                    start,
                    shapes(arguments@),
                ),
                !more ==> g_arguments(bytes, old(self).cursor(), start) == Ok::<_, Failure>(
                    (shapes(arguments@), self.cursor()),
                ),
                old(self).steps_to(self),
                arguments.len() <= MAX_ARITY,
                covers(expressions_ids(arguments@), old(self).next_id(), self.next_id()),
                all_read(arguments@, self.bytes()),
                start <= old(self).next_start(),
                is_char_boundary(self.bytes(), start as int),
            decreases self.measure() + if more { 1int } else { 0int },
        {
            let ghost mid = self.next_id();
            let ghost c = self.cursor();
            let argument = self.expression()?;
            proof {
                lemma_shapes_len(arguments@);
            }
            if arguments.len() == MAX_ARITY {
                self.panic_mode = false;
                let end = argument.range.end;
                let range = Range { start, end };
                return Err(ParseError::TooManyArguments { range });
            }
            let ghost before = arguments@;
            arguments.push(argument);
            proof {
                lemma_shapes_push(before, argument);
                assert(arguments@.drop_last() =~= before);
                lemma_covers_join(
                    expressions_ids(before),
                    expression_ids(argument),
                    old(self).next_id(),
                    mid,
                    self.next_id(),
                );
            }
            let token = self.peek_ok()?;
            if token.kind != TokenKind::Comma {
                more = false;
            } else {
                self.next_token();
            }
        }
        Ok(arguments)
    }

    /// A primary expression followed by any number of argument lists.
    #[verifier::spinoff_prover]
    fn call(&mut self) -> (r: Result<Expression<'a>, ParseError>)
        requires
            old(self).wf(),
        ensures
            r matches Err(e) ==> reported_in(e, final(self).bytes()),
            old(self).advances_to(final(self)),
            r matches Ok(e) ==> covers(expression_ids(e), old(self).next_id(), final(self).next_id()),
            r matches Ok(e) ==> reads_between(
                e,
                final(self).bytes(),
                old(self).next_start(),
                final(self).next_start(),
            ),
            r matches Ok(e) ==> g_call(old(self).bytes(), old(self).cursor()) == Ok::<_, Failure>(
                (shape(e), final(self).cursor()),
            ),
            r matches Err(e) ==> g_call(old(self).bytes(), old(self).cursor())
                == Err::<(ExpressionShape, Cursor), Failure>(
                Failure { error: e, at: final(self).cursor() },
            ),
            peek(old(self).bytes(), old(self).cursor()) is Some ==> beyond(
                old(self).bytes(),
                old(self).cursor(),
                final(self).cursor(),
            ),
        decreases old(self).measure(), 2int,
    {
        let ghost bytes = self.bytes();
        let mut expression = self.primary()?;
        let start = expression.range.start;
        assert(not_before(bytes, old(self).cursor(), self.cursor()));
        loop
            invariant
                peek(old(self).bytes(), old(self).cursor()) is Some ==> beyond(
                    old(self).bytes(),
                    old(self).cursor(),
                    self.cursor(),
                ),
                self.bytes() == bytes,
                g_call(bytes, old(self).cursor()) == g_call_tail(
                    bytes,
                    self.cursor(),
                    start,
                    shape(expression),
                ),
                old(self).advances_to(self),
                covers(expression_ids(expression), old(self).next_id(), self.next_id()),
                reads_between(expression, self.bytes(), old(self).next_start(), self.next_start()),
                expression.range.start == start,
            decreases self.measure(),
        {
            let token = match self.peek_token() {
                None => {
                    return Ok(expression);
                },
                Some(Err(error)) => {
                    self.next_token();
                    return Err(error);
                },
                Some(Ok(token)) => token,
            };
            if token.kind != TokenKind::LParen {
                return Ok(expression);
            }
            self.next_token();
            let ghost mid = self.next_id();
            assert(span_in(self.bytes(), expression.range));
            assert(start <= self.next_start());
            let arguments = self.arguments(start)?;
            proof {
                lemma_covers_join(
                    expression_ids(expression),
                    expressions_ids(arguments@),
                    old(self).next_id(),
                    mid,
                    self.next_id(),
                );
            }
            let token = self.expect(TokenKind::RParen)?;
            let end = token.range.end;
            let range = Range { start, end };
            let id = self.ids.next_id();
            proof {
                lemma_covers_single(id.value());
                lemma_covers_join(
                    expression_ids(expression) + expressions_ids(arguments@),
                    seq![id.value()],
                    old(self).next_id(),
                    id.value() as int,
                    id.value() + 1,
                );
            }
            expression = Expression::call(id, range, expression, arguments);
        }
    }

    /// A literal, a variable, or a parenthesized expression.
    #[verifier::spinoff_prover]
    fn primary(&mut self) -> (r: Result<Expression<'a>, ParseError>)
        requires
            old(self).wf(),
        ensures
            r matches Err(e) ==> reported_in(e, final(self).bytes()),
            old(self).advances_to(final(self)),
            r matches Ok(e) ==> covers(expression_ids(e), old(self).next_id(), final(self).next_id()),
            r matches Ok(e) ==> reads_between(
                e,
                final(self).bytes(),
                old(self).next_start(),
                final(self).next_start(),
            ),
            r matches Ok(e) ==> g_primary(old(self).bytes(), old(self).cursor())
                == Ok::<_, Failure>(
                (shape(e), final(self).cursor()),
            ),
            r matches Err(e) ==> g_primary(old(self).bytes(), old(self).cursor())
                == Err::<(ExpressionShape, Cursor), Failure>(
                Failure { error: e, at: final(self).cursor() },
            ),
            peek(old(self).bytes(), old(self).cursor()) is Some ==> beyond(
                old(self).bytes(),
                old(self).cursor(),
                final(self).cursor(),
            ),
        decreases old(self).measure(), 1int,
    {
        let token = require(self.next_token())?;
        let range = token.range;
        match token.kind {
            TokenKind::LParen => {
                let start = token.range.start;
                let expression = self.expression()?;
                let token = self.expect(TokenKind::RParen)?;
                let end = token.range.end;
                let range = Range { start, end };
                let id = self.ids.next_id();
                proof {
                    lemma_covers_single(id.value());
                    lemma_covers_join(
                        expression_ids(expression),
                        seq![id.value()],
                        old(self).next_id(),
                        id.value() as int,
                        id.value() + 1,
                    );
                }
                Ok(Expression::grouping(id, range, expression))
            },
            TokenKind::String => {
                let literal = string_literal(self.source(), token, &mut self.ids);
                proof {
                    if literal is Ok {
                        lemma_covers_single(literal->Ok_0.id.value());
                    }
                }
                literal
            },
            _ => match atom(self.source(), token, &mut self.ids) {
                Some(e) => {
                    proof {
                        lemma_covers_single(e.id.value());
                    }
                    Ok(e)
                },
                None => Err(ParseError::UnexpectedToken(token)),
            },
        }
    }

    /// An expression followed by a semicolon.
    #[verifier::spinoff_prover]
    fn expression_statement(&mut self) -> (r: Result<Statement<'a>, ParseError>)
        requires
            old(self).wf(),
        ensures
            r matches Err(e) ==> reported_in(e, final(self).bytes()),
            old(self).progresses_to(final(self)),
            r matches Ok(s) ==> covers(statement_ids(s), old(self).next_id(), final(self).next_id()),
            r matches Ok(s) ==> statement_reads(s, final(self).bytes()),
            r is Ok ==> final(self).depth() == old(self).depth(),
            r matches Ok(s) ==> g_expression_statement(old(self).bytes(), old(self).cursor())
                == Ok::<_, Failure>(
                (statement_shape(s), final(self).cursor()),
            ),
            r matches Err(e) ==> g_expression_statement(old(self).bytes(), old(self).cursor())
                == Err::<(StatementShape, Cursor), Failure>(
                Failure { error: e, at: final(self).cursor() },
            ),
            r is Ok ==> beyond(old(self).bytes(), old(self).cursor(), final(self).cursor()),
            peek(old(self).bytes(), old(self).cursor()) is Some ==> beyond(
                old(self).bytes(),
                old(self).cursor(),
                final(self).cursor(),
            ),
            r matches Ok(s) ==> statement_nesting(s) <= final(self).cursor().pos - old(self).cursor().pos,
        decreases old(self).measure(), 12int,
    {
        let expression = self.expression()?;
        let token = self.expect(TokenKind::Semicolon)?;
        Ok(Statement::expression(expression))
    }

    /// A return statement; one outside any function body is an error.
    #[verifier::spinoff_prover]
    fn return_statement(&mut self) -> (r: Result<Statement<'a>, ParseError>)
        requires
            old(self).wf(),
        ensures
            r matches Err(e) ==> reported_in(e, final(self).bytes()),
            old(self).progresses_to(final(self)),
            r matches Ok(s) ==> covers(statement_ids(s), old(self).next_id(), final(self).next_id()),
            r matches Ok(s) ==> statement_reads(s, final(self).bytes()),
            r is Ok ==> final(self).depth() == old(self).depth(),
            r matches Ok(s) ==> g_return(old(self).bytes(), old(self).cursor()) == Ok::<_, Failure>(
                (statement_shape(s), final(self).cursor()),
            ),
            r matches Err(e) ==> g_return(old(self).bytes(), old(self).cursor())
                == Err::<(StatementShape, Cursor), Failure>(
                Failure { error: e, at: final(self).cursor() },
            ),
            r is Ok ==> beyond(old(self).bytes(), old(self).cursor(), final(self).cursor()),
            peek(old(self).bytes(), old(self).cursor()) is Some ==> beyond(
                old(self).bytes(),
                old(self).cursor(),
                final(self).cursor(),
            ),
            r matches Ok(s) ==> statement_nesting(s) <= final(self).cursor().pos - old(self).cursor().pos,
        decreases old(self).measure(), 13int,
    {
        let token = self.expect(TokenKind::Keyword(Keyword::Return))?;
        if self.function_declaration_depth == 0 {
            let range = token.range;
            return Err(ParseError::ReturnOutsideFunction { range });
        }
        let keyword_range = token.range;
        assert(span_in(self.bytes(), keyword_range));
        let token = self.peek_ok()?;
        if token.kind == TokenKind::Semicolon {
            self.next_token();
            proof {
                lemma_covers_empty(old(self).next_id());
            }
            return Ok(Statement::return_statement(keyword_range, None));
        }
        let value = self.expression()?;
        let token = self.expect(TokenKind::Semicolon)?;
        Ok(Statement::return_statement(keyword_range, Some(value)))
    }

    /// A print statement.
    #[verifier::spinoff_prover]
    fn print_statement(&mut self) -> (r: Result<Statement<'a>, ParseError>)
        requires
            old(self).wf(),
        ensures
            r matches Err(e) ==> reported_in(e, final(self).bytes()),
            old(self).progresses_to(final(self)),
            r matches Ok(s) ==> covers(statement_ids(s), old(self).next_id(), final(self).next_id()),
            r matches Ok(s) ==> statement_reads(s, final(self).bytes()),
            r is Ok ==> final(self).depth() == old(self).depth(),
            r matches Ok(s) ==> g_print(old(self).bytes(), old(self).cursor()) == Ok::<_, Failure>(
                (statement_shape(s), final(self).cursor()),
            ),
            r matches Err(e) ==> g_print(old(self).bytes(), old(self).cursor())
                == Err::<(StatementShape, Cursor), Failure>(
                Failure { error: e, at: final(self).cursor() },
            ),
            r is Ok ==> beyond(old(self).bytes(), old(self).cursor(), final(self).cursor()),
            peek(old(self).bytes(), old(self).cursor()) is Some ==> beyond(
                old(self).bytes(),
                old(self).cursor(),
                final(self).cursor(),
            ),
            r matches Ok(s) ==> statement_nesting(s) <= final(self).cursor().pos - old(self).cursor().pos,
        decreases old(self).measure(), 14int,
    {
        let token = self.expect(TokenKind::Keyword(Keyword::Print))?;
        let expression = self.expression()?;
        let token = self.expect(TokenKind::Semicolon)?;
        Ok(Statement::print(expression))
    }

    /// The branch after `else`, where an `else` follows.
    #[verifier::spinoff_prover]
    fn else_branch(&mut self) -> (r: Result<Option<Statement<'a>>, ParseError>)
        requires
            old(self).wf(),
        ensures
            r matches Err(e) ==> reported_in(e, final(self).bytes()),
            old(self).moves_to(final(self)),
            r is Ok ==> final(self).depth() == old(self).depth(),
            r matches Ok(b) ==> covers(
                maybe_statement_ids(b),
                old(self).next_id(),
                final(self).next_id(),
            ),
            r matches Ok(Some(b)) ==> statement_reads(b, final(self).bytes()),
            r matches Ok(b) ==> g_else(old(self).bytes(), old(self).cursor()) == Ok::<_, Failure>(
                (maybe_statement_shape(b), final(self).cursor()),
            ),
            r matches Err(e) ==> g_else(old(self).bytes(), old(self).cursor())
                == Err::<(Option<StatementShape>, Cursor), Failure>(
                Failure { error: e, at: final(self).cursor() },
            ),
            r matches Ok(Some(b)) ==> statement_nesting(b) <= final(self).cursor().pos - old(self).cursor().pos,
        decreases old(self).measure(), 0int,
    {
        match self.peek_token() {
            Some(Err(error)) => {
                self.next_token();
                Err(error)
            },
            Some(Ok(token)) => {
                if token.kind == TokenKind::Keyword(Keyword::Else) {
                    self.next_token();
                    let statement = self.statement()?;
                    Ok(Some(statement))
                } else {
                    proof {
                        lemma_covers_empty(old(self).next_id());
                    }
                    Ok(None)
                }
            },
            None => {
                proof {
                    lemma_covers_empty(old(self).next_id());
                }
                Ok(None)
            },
        }
    }

    /// An if statement with an optional else branch.
    #[verifier::spinoff_prover]
    fn if_statement(&mut self) -> (r: Result<Statement<'a>, ParseError>)
        requires
            old(self).wf(),
        ensures
            r matches Err(e) ==> reported_in(e, final(self).bytes()),
            old(self).progresses_to(final(self)),
            r matches Ok(s) ==> covers(statement_ids(s), old(self).next_id(), final(self).next_id()),
            r matches Ok(s) ==> statement_reads(s, final(self).bytes()),
            r is Ok ==> final(self).depth() == old(self).depth(),
            r matches Ok(s) ==> g_if(old(self).bytes(), old(self).cursor()) == Ok::<_, Failure>(
                (statement_shape(s), final(self).cursor()),
            ),
            r matches Err(e) ==> g_if(old(self).bytes(), old(self).cursor())
                == Err::<(StatementShape, Cursor), Failure>(
                Failure { error: e, at: final(self).cursor() },
            ),
            r is Ok ==> beyond(old(self).bytes(), old(self).cursor(), final(self).cursor()),
            peek(old(self).bytes(), old(self).cursor()) is Some ==> beyond(
                old(self).bytes(),
                old(self).cursor(),
                final(self).cursor(),
            ),
            r matches Ok(s) ==> statement_nesting(s) <= final(self).cursor().pos - old(self).cursor().pos,
        decreases old(self).measure(), 15int,
    {
        let token = self.expect(TokenKind::Keyword(Keyword::If))?;
        let token = self.expect(TokenKind::LParen)?;
        let condition = self.expression()?;
        let token = self.expect(TokenKind::RParen)?;
        let ghost b = self.next_id();
        let then_branch = self.statement()?;
        let ghost c = self.next_id();
        proof {
            lemma_covers_join(
                expression_ids(condition),
                statement_ids(then_branch),
                old(self).next_id(),
                b,
                c,
            );
            lemma_covers_empty(c);
        }
        let else_branch = self.else_branch()?;
        proof {
            lemma_covers_join(
                expression_ids(condition) + statement_ids(then_branch),
                maybe_statement_ids(else_branch),
                old(self).next_id(),
                c,
                self.next_id(),
            );
        }
        proof {
            lemma_if_ids(condition, then_branch, else_branch);
            lemma_if_reads(condition, then_branch, else_branch, self.bytes());
        }
        let statement = Statement::if_statement(condition, then_branch, else_branch);
        Ok(statement)
    }

    /// The initializer of a for loop: nothing before a semicolon, a variable
    /// declaration, or an expression statement.
    #[verifier::spinoff_prover]
    fn for_initializer(&mut self) -> (r: Result<Option<Statement<'a>>, ParseError>)
        requires
            old(self).wf(),
        ensures
            r matches Err(e) ==> reported_in(e, final(self).bytes()),
            old(self).moves_to(final(self)),
            r is Ok ==> final(self).depth() == old(self).depth(),
            r matches Ok(s) ==> covers(
                maybe_statement_ids(s),
                old(self).next_id(),
                final(self).next_id(),
            ),
            r matches Ok(Some(s)) ==> statement_reads(s, final(self).bytes()),
            r matches Ok(b) ==> g_for_initializer(old(self).bytes(), old(self).cursor())
                == Ok::<_, Failure>(
                (maybe_statement_shape(b), final(self).cursor()),
            ),
            r matches Err(e) ==> g_for_initializer(old(self).bytes(), old(self).cursor())
                == Err::<(Option<StatementShape>, Cursor), Failure>(
                Failure { error: e, at: final(self).cursor() },
            ),
            r matches Ok(Some(b)) ==> statement_nesting(b) <= final(self).cursor().pos - old(self).cursor().pos,
        decreases old(self).measure(), 23int,
    {
        let token = self.peek_ok()?;
        if token.kind == TokenKind::Semicolon {
            proof {
                lemma_covers_empty(old(self).next_id());
            }
            Ok(None)
        } else if token.kind == TokenKind::Keyword(Keyword::Var) {
            let statement = self.variable_declaration()?;
            Ok(Some(statement))
        } else {
            let statement = self.expression_statement()?;
            Ok(Some(statement))
        }
    }

    /// The condition of a for loop and the semicolon after it: `true`, at
    /// the span of the semicolon, where none is written.
    #[verifier::spinoff_prover]
    fn for_condition(&mut self) -> (r: Result<Expression<'a>, ParseError>)
        requires
            old(self).wf(),
        ensures
            r matches Err(e) ==> reported_in(e, final(self).bytes()),
            old(self).advances_to(final(self)),
            r matches Ok(e) ==> covers(expression_ids(e), old(self).next_id(), final(self).next_id())
                && reads(e, final(self).bytes()),
            r matches Ok(e) ==> g_for_condition(old(self).bytes(), old(self).cursor())
                == Ok::<_, Failure>(
                (shape(e), final(self).cursor()),
            ),
            r matches Err(e) ==> g_for_condition(old(self).bytes(), old(self).cursor())
                == Err::<(ExpressionShape, Cursor), Failure>(
                Failure { error: e, at: final(self).cursor() },
            ),
        decreases old(self).measure(), 12int,
    {
        let token = self.peek_ok()?;
        if token.kind == TokenKind::Semicolon {
            self.next_token();
            let range = token.range;
            let id = self.ids.next_id();
            proof {
                lemma_covers_single(id.value());
            }
            return Ok(Expression::literal(id, range, Literal::Boolean(true)));
        }
        let condition = self.expression()?;
        let token = self.expect(TokenKind::Semicolon)?;
        Ok(condition)
    }

    /// The increment of a for loop, where one is written before the closing
    /// parenthesis.
    #[verifier::spinoff_prover]
    fn for_increment(&mut self) -> (r: Result<Option<Expression<'a>>, ParseError>)
        requires
            old(self).wf(),
        ensures
            r matches Err(e) ==> reported_in(e, final(self).bytes()),
            old(self).steps_to(final(self)),
            r matches Ok(e) ==> covers(
                maybe_expression_ids(e),
                old(self).next_id(),
                final(self).next_id(),
            ),
            r matches Ok(Some(e)) ==> reads(e, final(self).bytes()),
            r matches Ok(e) ==> g_for_increment(old(self).bytes(), old(self).cursor())
                == Ok::<_, Failure>(
                (maybe_shape(e), final(self).cursor()),
            ),
            r matches Err(e) ==> g_for_increment(old(self).bytes(), old(self).cursor())
                == Err::<(Option<ExpressionShape>, Cursor), Failure>(
                Failure { error: e, at: final(self).cursor() },
            ),
        decreases old(self).measure(), 12int,
    {
        let token = self.peek_ok()?;
        if token.kind == TokenKind::RParen {
            proof {
                lemma_covers_empty(old(self).next_id());
            }
            Ok(None)
        } else {
            let expression = self.expression()?;
            Ok(Some(expression))
        }
    }

    /// A for loop, which becomes a while loop in a block: the initializer
    /// first, then the loop whose body runs the increment after the loop's
    /// own body; a missing condition is `true`.
    #[verifier::spinoff_prover]
    fn for_statement(&mut self) -> (r: Result<Statement<'a>, ParseError>)
        requires
            old(self).wf(),
        ensures
            r matches Err(e) ==> reported_in(e, final(self).bytes()),
            old(self).progresses_to(final(self)),
            r matches Ok(s) ==> covers(statement_ids(s), old(self).next_id(), final(self).next_id()),
            r matches Ok(s) ==> statement_reads(s, final(self).bytes()),
            r is Ok ==> final(self).depth() == old(self).depth(),
            r matches Ok(s) ==> g_for(old(self).bytes(), old(self).cursor()) == Ok::<_, Failure>(
                (statement_shape(s), final(self).cursor()),
            ),
            r matches Err(e) ==> g_for(old(self).bytes(), old(self).cursor())
                == Err::<(StatementShape, Cursor), Failure>(
                Failure { error: e, at: final(self).cursor() },
            ),
            r is Ok ==> beyond(old(self).bytes(), old(self).cursor(), final(self).cursor()),
            peek(old(self).bytes(), old(self).cursor()) is Some ==> beyond(
                old(self).bytes(),
                old(self).cursor(),
                final(self).cursor(),
            ),
            r matches Ok(s) ==> statement_nesting(s) <= final(self).cursor().pos - old(self).cursor().pos,
        decreases old(self).measure(), 16int,
    {
        let token = self.expect(TokenKind::Keyword(Keyword::For))?;
        let token = self.expect(TokenKind::LParen)?;
        let ghost lo = self.next_id();
        let initializer = self.for_initializer()?;
        let ghost b = self.next_id();
        let condition = self.for_condition()?;
        let ghost c = self.next_id();
        let increment = self.for_increment()?;
        let ghost d = self.next_id();
        let token = self.expect(TokenKind::RParen)?;
        let body = self.statement()?;
        proof {
            let init_ids = maybe_statement_ids(initializer);
            let increment_ids = maybe_expression_ids(increment);
            lemma_covers_join(increment_ids, statement_ids(body), c, d, self.next_id());
            lemma_covers_join(
                expression_ids(condition),
                statement_ids(body) + increment_ids,
                b,
                c,
                self.next_id(),
            );
            lemma_covers_join(
                init_ids,
                expression_ids(condition) + (statement_ids(body) + increment_ids),
                lo,
                b,
                self.next_id(),
            );
        }
        Ok(for_loop(initializer, condition, increment, body, Ghost(self.bytes())))
    }

    /// A while loop.
    #[verifier::spinoff_prover]
    fn while_statement(&mut self) -> (r: Result<Statement<'a>, ParseError>)
        requires
            old(self).wf(),
        ensures
            r matches Err(e) ==> reported_in(e, final(self).bytes()),
            old(self).progresses_to(final(self)),
            r matches Ok(s) ==> covers(statement_ids(s), old(self).next_id(), final(self).next_id()),
            r matches Ok(s) ==> statement_reads(s, final(self).bytes()),
            r is Ok ==> final(self).depth() == old(self).depth(),
            r matches Ok(s) ==> g_while(old(self).bytes(), old(self).cursor()) == Ok::<_, Failure>(
                (statement_shape(s), final(self).cursor()),
            ),
            r matches Err(e) ==> g_while(old(self).bytes(), old(self).cursor())
                == Err::<(StatementShape, Cursor), Failure>(
                Failure { error: e, at: final(self).cursor() },
            ),
            r is Ok ==> beyond(old(self).bytes(), old(self).cursor(), final(self).cursor()),
            peek(old(self).bytes(), old(self).cursor()) is Some ==> beyond(
                old(self).bytes(),
                old(self).cursor(),
                final(self).cursor(),
            ),
            r matches Ok(s) ==> statement_nesting(s) <= final(self).cursor().pos - old(self).cursor().pos,
        decreases old(self).measure(), 17int,
    {
        let token = self.expect(TokenKind::Keyword(Keyword::While))?;
        let token = self.expect(TokenKind::LParen)?;
        let condition = self.expression()?;
        let token = self.expect(TokenKind::RParen)?;
        let ghost b = self.next_id();
        let body = self.statement()?;
        proof {
            lemma_covers_join(
                expression_ids(condition),
                statement_ids(body),
                old(self).next_id(),
                b,
                self.next_id(),
            );
        }
        Ok(Statement::while_statement(condition, body))
    }

    /// A block of declarations in braces.
    #[verifier::spinoff_prover]
    fn block_statement(&mut self) -> (r: Result<Statement<'a>, ParseError>)
        requires
            old(self).wf(),
        ensures
            r matches Err(e) ==> reported_in(e, final(self).bytes()),
            old(self).progresses_to(final(self)),
            r matches Ok(s) ==> covers(statement_ids(s), old(self).next_id(), final(self).next_id()),
            r matches Ok(s) ==> statement_reads(s, final(self).bytes()),
            r is Ok ==> final(self).depth() == old(self).depth(),
            r matches Ok(s) ==> g_block(old(self).bytes(), old(self).cursor()) == Ok::<_, Failure>(
                (statement_shape(s), final(self).cursor()),
            ),
            r matches Err(e) ==> g_block(old(self).bytes(), old(self).cursor())
                == Err::<(StatementShape, Cursor), Failure>(
                Failure { error: e, at: final(self).cursor() },
            ),
            r is Ok ==> beyond(old(self).bytes(), old(self).cursor(), final(self).cursor()),
            peek(old(self).bytes(), old(self).cursor()) is Some ==> beyond(
                old(self).bytes(),
                old(self).cursor(),
                final(self).cursor(),
            ),
            r matches Ok(s) ==> statement_nesting(s) <= final(self).cursor().pos - old(self).cursor().pos,
        decreases old(self).measure(), 18int,
    {
        let ghost bytes = self.bytes();
        let token = self.expect(TokenKind::LBrace)?;
        let ghost opened = self.cursor();
        let mut statements: Vec<Statement<'a>> = Vec::new();
        proof {
            lemma_covers_empty(self.next_id());
        }
        loop
            invariant
                statements_nesting(statements@) <= self.cursor().pos - old(self).cursor().pos,
                self.bytes() == bytes,
                beyond(bytes, old(self).cursor(), opened),
                not_before(bytes, opened, self.cursor()),
                g_keyword(bytes, old(self).cursor(), TokenKind::LBrace) == Ok::<_, Failure>(
                    (token, opened),
                ),
                g_block_from(bytes, opened, Seq::empty()) == g_block_from(
                    bytes,
                    self.cursor(),
                    statement_shapes(statements@),
                ),
                old(self).moves_to(self),
                self.depth() == old(self).depth(),
                self.measure() < old(self).measure(),
                covers(statements_ids(statements@), old(self).next_id(), self.next_id()),
                statements_read(statements@, self.bytes()),
            decreases self.measure(),
        {
            let token = self.peek_ok()?;
            if token.kind == TokenKind::RBrace {
                self.next_token();
                return Ok(Statement::block(statements));
            }
            let ghost mid = self.next_id();
            let statement = self.declaration()?;
            proof {
                lemma_statement_shapes_push(statements@, statement);
                lemma_statements_ids_push(statements@, statement);
                assert(statements@.push(statement).drop_last() =~= statements@);
                lemma_covers_join(
                    statements_ids(statements@),
                    statement_ids(statement),
                    old(self).next_id(),
                    mid,
                    self.next_id(),
                );
            }
            statements.push(statement);
        }
    }

    /// A statement, by its first token.
    #[verifier::spinoff_prover]
    fn statement(&mut self) -> (r: Result<Statement<'a>, ParseError>)
        requires
            old(self).wf(),
        ensures
            r matches Err(e) ==> reported_in(e, final(self).bytes()),
            old(self).progresses_to(final(self)),
            r matches Ok(s) ==> covers(statement_ids(s), old(self).next_id(), final(self).next_id()),
            r matches Ok(s) ==> statement_reads(s, final(self).bytes()),
            r is Ok ==> final(self).depth() == old(self).depth(),
            r matches Ok(s) ==> g_statement(old(self).bytes(), old(self).cursor())
                == Ok::<_, Failure>(
                (statement_shape(s), final(self).cursor()),
            ),
            r matches Err(e) ==> g_statement(old(self).bytes(), old(self).cursor())
                == Err::<(StatementShape, Cursor), Failure>(
                Failure { error: e, at: final(self).cursor() },
            ),
            r is Ok ==> beyond(old(self).bytes(), old(self).cursor(), final(self).cursor()),
            peek(old(self).bytes(), old(self).cursor()) is Some ==> beyond(
                old(self).bytes(),
                old(self).cursor(),
                final(self).cursor(),
            ),
            r matches Ok(s) ==> statement_nesting(s) <= final(self).cursor().pos - old(self).cursor().pos,
        decreases old(self).measure(), 19int,
    {
        let token = self.peek_ok()?;
        match token.kind {
            TokenKind::LBrace => self.block_statement(),
            TokenKind::Keyword(Keyword::While) => self.while_statement(),
            TokenKind::Keyword(Keyword::For) => self.for_statement(),
            TokenKind::Keyword(Keyword::If) => self.if_statement(),
            TokenKind::Keyword(Keyword::Print) => self.print_statement(),
            TokenKind::Keyword(Keyword::Return) => self.return_statement(),
            _ => self.expression_statement(),
        }
    }

    /// A variable declaration with an optional initializer.
    #[verifier::spinoff_prover]
    fn variable_declaration(&mut self) -> (r: Result<Statement<'a>, ParseError>)
        requires
            old(self).wf(),
        ensures
            r matches Err(e) ==> reported_in(e, final(self).bytes()),
            old(self).progresses_to(final(self)),
            r matches Ok(s) ==> covers(statement_ids(s), old(self).next_id(), final(self).next_id()),
            r matches Ok(s) ==> statement_reads(s, final(self).bytes()),
            r is Ok ==> final(self).depth() == old(self).depth(),
            r matches Ok(s) ==> g_variable(old(self).bytes(), old(self).cursor())
                == Ok::<_, Failure>(
                (statement_shape(s), final(self).cursor()),
            ),
            r matches Err(e) ==> g_variable(old(self).bytes(), old(self).cursor())
                == Err::<(StatementShape, Cursor), Failure>(
                Failure { error: e, at: final(self).cursor() },
            ),
            r is Ok ==> beyond(old(self).bytes(), old(self).cursor(), final(self).cursor()),
            peek(old(self).bytes(), old(self).cursor()) is Some ==> beyond(
                old(self).bytes(),
                old(self).cursor(),
                final(self).cursor(),
            ),
            r matches Ok(s) ==> statement_nesting(s) <= final(self).cursor().pos - old(self).cursor().pos,
        decreases old(self).measure(), 20int,
    {
        let token = self.expect(TokenKind::Keyword(Keyword::Var))?;
        let token = self.expect(TokenKind::Identifier)?;
        let text = slice(self.source(), token.range.start, token.range.end);
        let name = Identifier { text, range: token.range };
        let token = self.peek_ok()?;
        let initializer = if token.kind != TokenKind::Equal {
            proof {
                lemma_covers_empty(old(self).next_id());
            }
            None
        } else {
            self.next_token();
            let expression = self.expression()?;
            Some(expression)
        };
        let token = self.expect(TokenKind::Semicolon)?;
        Ok(Statement::variable_declaration(name, initializer))
    }

    /// The parameters of a function whose declaration starts at `start`:
    /// names separated by commas after the opening parenthesis, up to the
    /// closing one, which is left unconsumed; at most `MAX_ARITY` of them.
    #[verifier::spinoff_prover]
    fn parameters(&mut self, start: usize) -> (r: Result<Vec<Identifier<'a>>, ParseError>)
        requires
            old(self).wf(),
            start <= old(self).next_start(),
            is_char_boundary(old(self).bytes(), start as int),
        ensures
            r matches Err(e) ==> reported_in(e, final(self).bytes()),
            old(self).steps_to(final(self)),
            final(self).next_id() == old(self).next_id(),
            r matches Ok(parameters) ==> forall|i: int|
                0 <= i < parameters@.len() ==> identifier_reads(
                    #[trigger] parameters@[i],
                    final(self).bytes(),
                ),
            r matches Ok(parameters) ==> g_parameters(old(self).bytes(), old(self).cursor(), start)
                == Ok::<_, Failure>(
                (name_shapes(parameters@), final(self).cursor()),
            ),
            r matches Err(e) ==> g_parameters(old(self).bytes(), old(self).cursor(), start)
                == Err::<(Seq<(Seq<u8>, Range)>, Cursor), Failure>(
                Failure { error: e, at: final(self).cursor() },
            ),
    {
        let ghost bytes = self.bytes();
        let mut parameters: Vec<Identifier<'a>> = Vec::new();
        let token = self.peek_ok()?;
        if token.kind == TokenKind::RParen {
            return Ok(parameters);
        }
        assert(name_shapes(parameters@) =~= Seq::<(Seq<u8>, Range)>::empty());
        let mut more = true;
        while more
            invariant
                self.bytes() == bytes,
                more ==> g_parameters(bytes, old(self).cursor(), start) == g_parameters_from(
                    bytes,
                    self.cursor(),
                    start,
                    name_shapes(parameters@),
                ),
                !more ==> g_parameters(bytes, old(self).cursor(), start) == Ok::<_, Failure>(
                    (name_shapes(parameters@), self.cursor()),
                ),
                old(self).steps_to(self),
                self.next_id() == old(self).next_id(),
                parameters.len() <= MAX_ARITY,
                start <= old(self).next_start(),
                is_char_boundary(self.bytes(), start as int),
                forall|i: int|
                    0 <= i < parameters@.len() ==> identifier_reads(
                        #[trigger] parameters@[i],
                        self.bytes(),
                    ),
            decreases self.measure() + if more { 1int } else { 0int },
        {
            let token = self.expect(TokenKind::Identifier)?;
            if parameters.len() == MAX_ARITY {
                self.panic_mode = false;
                let end = token.range.end;
                let range = Range { start, end };
                return Err(ParseError::TooManyArguments { range });
            }
            let parameter = Identifier {
                text: slice(self.source(), token.range.start, token.range.end),
                range: token.range,
            };
            proof {
                lemma_name_shapes_push(parameters@, parameter);
                assert(parameters@.len() == name_shapes(parameters@).len());
            }
            parameters.push(parameter);
            let token = self.peek_ok()?;
            if token.kind != TokenKind::Comma {
                more = false;
            } else {
                self.next_token();
            }
        }
        Ok(parameters)
    }

    /// A function declaration. An error in its body leaves the depth raised by one.
    #[verifier::spinoff_prover]
    fn function_declaration(&mut self) -> (r: Result<Statement<'a>, ParseError>)
        requires
            old(self).wf(),
        ensures
            r matches Err(e) ==> reported_in(e, final(self).bytes()),
            old(self).progresses_to(final(self)),
            r matches Ok(s) ==> covers(statement_ids(s), old(self).next_id(), final(self).next_id()),
            r matches Ok(s) ==> statement_reads(s, final(self).bytes()),
            r is Ok ==> final(self).depth() == old(self).depth(),
            r matches Ok(s) ==> g_function(old(self).bytes(), old(self).cursor())
                == Ok::<_, Failure>(
                (statement_shape(s), final(self).cursor()),
            ),
            r matches Err(e) ==> g_function(old(self).bytes(), old(self).cursor())
                == Err::<(StatementShape, Cursor), Failure>(
                Failure { error: e, at: final(self).cursor() },
            ),
            r is Ok ==> beyond(old(self).bytes(), old(self).cursor(), final(self).cursor()),
            peek(old(self).bytes(), old(self).cursor()) is Some ==> beyond(
                old(self).bytes(),
                old(self).cursor(),
                final(self).cursor(),
            ),
            r matches Ok(s) ==> statement_nesting(s) <= final(self).cursor().pos - old(self).cursor().pos,
        decreases old(self).measure(), 21int,
    {
        let token = self.expect(TokenKind::Keyword(Keyword::Fun))?;
        let start = token.range.start;
        let token = self.expect(TokenKind::Identifier)?;
        let text = slice(self.source(), token.range.start, token.range.end);
        let name = Identifier { text, range: token.range };
        let token = self.expect(TokenKind::LParen)?;
        assert(start <= self.next_start());
        let parameters = self.parameters(start)?;
        let token = self.expect(TokenKind::RParen)?;
        let token = self.expect(TokenKind::LBrace)?;
        self.function_declaration_depth = self.function_declaration_depth + 1;
        let body = self.function_body()?;
        proof {
            lemma_function_parts(name, parameters, body, self.bytes());
        }
        Ok(Statement::function_declaration(name, parameters, body))
    }

    /// The declarations of a function body up to its closing brace, which
    /// is consumed, and the depth lowered again by one; where the next token
    /// is missing or is an error, the depth is lowered too, and where a
    /// declaration fails, it is left as it is.
    #[verifier::spinoff_prover]
    fn function_body(&mut self) -> (r: Result<Vec<Statement<'a>>, ParseError>)
        requires
            old(self).wf(),
            old(self).depth() >= 1,
        ensures
            r matches Err(e) ==> reported_in(e, final(self).bytes()),
            old(self).leaves_to(final(self)),
            r is Ok ==> final(self).depth() == old(self).depth() - 1 && final(self).measure()
                < old(self).measure(),
            r matches Ok(body) ==> covers(
                statements_ids(body@),
                old(self).next_id(),
                final(self).next_id(),
            ) && statements_read(body@, final(self).bytes()),
            r matches Ok(body) ==> g_body(old(self).bytes(), old(self).cursor(), Seq::empty())
                == Ok::<_, Failure>(
                (statement_shapes(body@), final(self).cursor()),
            ),
            r matches Err(e) ==> g_body(old(self).bytes(), old(self).cursor(), Seq::empty())
                == Err::<(Seq<StatementShape>, Cursor), Failure>(
                Failure { error: e, at: final(self).cursor() },
            ),
            r matches Ok(body) ==> statements_nesting(body@) <= final(self).cursor().pos - old(self).cursor().pos,
        decreases old(self).measure(), 24int,
    {
        let ghost bytes = self.bytes();
        let mut body: Vec<Statement<'a>> = Vec::new();
        proof {
            lemma_covers_empty(self.next_id());
        }
        loop
            invariant
                statements_nesting(body@) <= self.cursor().pos - old(self).cursor().pos,
                self.bytes() == bytes,
                not_before(bytes, old(self).cursor(), self.cursor()),
                g_body(bytes, old(self).cursor(), Seq::empty()) == g_body(
                    bytes,
                    self.cursor(),
                    statement_shapes(body@),
                ),
                old(self).moves_to(self),
                self.depth() == old(self).depth(),
                self.depth() >= 1,
                self.measure() <= old(self).measure(),
                covers(statements_ids(body@), old(self).next_id(), self.next_id()),
                statements_read(body@, self.bytes()),
            decreases self.measure(),
        {
            let token = match self.peek_ok() {
                Ok(token) => token,
                Err(error) => {
                    self.function_declaration_depth = self.function_declaration_depth - 1;
                    return Err(error);
                },
            };
            if token.kind == TokenKind::RBrace {
                self.next_token();
                self.function_declaration_depth = self.function_declaration_depth - 1;
                return Ok(body);
            }
            let ghost mid = self.next_id();
            let statement = self.declaration()?;
            proof {
                lemma_statement_shapes_push(body@, statement);
                lemma_statements_ids_push(body@, statement);
                assert(body@.push(statement).drop_last() =~= body@);
                lemma_covers_join(
                    statements_ids(body@),
                    statement_ids(statement),
                    old(self).next_id(),
                    mid,
                    self.next_id(),
                );
            }
            body.push(statement);
        }
    }

    /// Skips tokens up to the start of the next statement: just past a
    /// semicolon, or before a keyword that starts a statement.
    #[verifier::spinoff_prover]
    fn synchronize(&mut self)
        requires
            old(self).wf(),
        ensures
            old(self).steps_to(final(self)),
            final(self).panicking() == old(self).panicking(),
            final(self).cursor() == synchronized(old(self).bytes(), old(self).cursor()),
    {
        let mut done = false;
        while !done
            invariant
                old(self).steps_to(self),
                !done ==> synchronized(old(self).bytes(), old(self).cursor()) == synchronized(
                    self.bytes(),
                    self.cursor(),
                ),
                done ==> synchronized(old(self).bytes(), old(self).cursor()) == self.cursor(),
                self.panicking() == old(self).panicking(),
            decreases self.measure() + if done { 0int } else { 1int },
        {
            match self.peek_token() {
                None => {
                    done = true;
                },
                Some(Err(_)) => {
                    self.next_token();
                },
                Some(Ok(token)) => {
                    match token.kind {
                        TokenKind::Keyword(Keyword::Print)
                        | TokenKind::Keyword(Keyword::Class)
                        | TokenKind::Keyword(Keyword::Fun)
                        | TokenKind::Keyword(Keyword::Var)
                        | TokenKind::Keyword(Keyword::While)
                        | TokenKind::Keyword(Keyword::For)
                        | TokenKind::Keyword(Keyword::If)
                        | TokenKind::Keyword(Keyword::Return) => {
                            done = true;
                        },
                        TokenKind::Semicolon => {
                            self.next_token();
                            done = true;
                        },
                        _ => {
                            self.next_token();
                        },
                    }
                },
            }
        }
    }

    /// After an error: skips to the next statement where the parser is in
    /// panic mode, and goes back into panic mode otherwise.
    #[verifier::spinoff_prover]
    fn recover(&mut self)
        requires
            old(self).wf(),
        ensures
            old(self).moves_to(final(self)),
            final(self).depth() == old(self).depth(),
            final(self).cursor() == recovery(old(self).bytes(), old(self).cursor()),
    {
        if self.panic_mode {
            self.synchronize();
        } else {
            self.panic_mode = true;
        }
    }

    /// A declaration or a statement; after an error the parser recovers.
    #[verifier::spinoff_prover]
    fn declaration(&mut self) -> (r: Result<Statement<'a>, ParseError>)
        requires
            old(self).wf(),
        ensures
            r matches Err(e) ==> reported_in(e, final(self).bytes()),
            old(self).progresses_to(final(self)),
            r matches Ok(s) ==> covers(statement_ids(s), old(self).next_id(), final(self).next_id()),
            r matches Ok(s) ==> statement_reads(s, final(self).bytes()),
            r is Ok ==> final(self).depth() == old(self).depth(),
            r matches Ok(s) ==> g_declaration(old(self).bytes(), old(self).cursor())
                == Ok::<_, Failure>(
                (statement_shape(s), final(self).cursor()),
            ),
            r matches Err(e) ==> g_declaration(old(self).bytes(), old(self).cursor())
                == Err::<(StatementShape, Cursor), Failure>(
                Failure { error: e, at: final(self).cursor() },
            ),
            r is Ok ==> beyond(old(self).bytes(), old(self).cursor(), final(self).cursor()),
            peek(old(self).bytes(), old(self).cursor()) is Some ==> beyond(
                old(self).bytes(),
                old(self).cursor(),
                final(self).cursor(),
            ),
            r matches Ok(s) ==> statement_nesting(s) <= final(self).cursor().pos - old(self).cursor().pos,
        decreases old(self).measure(), 22int,
    {
        proof {
            reveal(g_declaration);
        }
        let token = match self.peek_ok() {
            Ok(token) => token,
            Err(error) => {
                self.recover();
                return Err(error);
            },
        };
        let result = if token.kind == TokenKind::Keyword(Keyword::Fun) {
            self.function_declaration()
        } else if token.kind == TokenKind::Keyword(Keyword::Var) {
            self.variable_declaration()
        } else {
            self.statement()
        };
        if result.is_err() {
            self.recover();
        }
        result
    }

    /// The next declaration or the error met in it; `None` once the source is
    /// used up.
    #[verifier::spinoff_prover]
    pub fn next(&mut self) -> (r: Option<Result<Statement<'a>, ParseError>>)
        requires
            old(self).wf(),
        ensures
            old(self).moves_to(final(self)),
            r is Some ==> final(self).measure() < old(self).measure(),
            r is None ==> final(self).at_end(),
            r matches Some(Ok(s)) ==> covers(
                statement_ids(s),
                old(self).next_id(),
                final(self).next_id(),
            ),
            r matches Some(Ok(s)) ==> statement_reads(s, final(self).bytes()),
            r matches Some(Err(e)) ==> reported_in(e, final(self).bytes()),
            r is None <==> peek(old(self).bytes(), old(self).cursor()) is None,
            r matches Some(Ok(s)) ==> g_declaration(old(self).bytes(), old(self).cursor())
                == Ok::<_, Failure>(
                (statement_shape(s), final(self).cursor()),
            ),
            r matches Some(Err(e)) ==> g_declaration(old(self).bytes(), old(self).cursor())
                == Err::<(StatementShape, Cursor), Failure>(
                Failure { error: e, at: final(self).cursor() },
            ),
            r is Some ==> beyond(old(self).bytes(), old(self).cursor(), final(self).cursor()),
            r matches Some(Ok(s)) ==> statement_nesting(s) <= final(self).cursor().pos - old(
                self,
            ).cursor().pos,
    {
        match self.peek_token() {
            None => None,
            Some(_) => Some(self.declaration()),
        }
    }

    /// All declarations of the source, or, where any fails, every error met,
    /// in order, parsing on after each one: what the grammar gives from where
    /// the parser stands, which for a new parser is `program` of its source.
    pub fn parse(self) -> (r: Result<Vec<Statement<'a>>, Vec<ParseError>>)
        requires
            self.wf(),
        ensures
            r matches Err(errors) ==> errors.len() >= 1,
            r matches Ok(statements) ==> statements_ids(statements@).no_duplicates(),
            r matches Ok(statements) ==> statements_nesting(statements@) <= self.bytes().len()
                <= usize::MAX,
            r matches Ok(statements) ==> statements_read(statements@, self.bytes()),
            r matches Err(errors) ==> forall|i: int|
                0 <= i < errors.len() ==> reported_in(#[trigger] errors[i], self.bytes()),
            r matches Ok(statements) ==> g_declarations(self.bytes(), self.cursor(), Seq::empty())
                == Ok::<Seq<StatementShape>, Seq<ParseError>>(statement_shapes(statements@)),
            r matches Err(errors) ==> g_declarations(self.bytes(), self.cursor(), Seq::empty()) == Err::<
                Seq<StatementShape>,
                Seq<ParseError>,
            >(errors@),
    {
        let mut parser = self;
        let mut statements: Vec<Statement<'a>> = Vec::new();
        proof {
            lemma_covers_empty(parser.next_id());
        }
        loop
            invariant
                parser.wf(),
                covers(statements_ids(statements@), self.next_id(), parser.next_id()),
                statements_read(statements@, self.bytes()),
                parser.bytes() == self.bytes(),
                statements_nesting(statements@) <= parser.cursor().pos - self.cursor().pos,
                self.cursor().pos >= 0,
                parser.cursor().pos <= self.bytes().len(),
                g_declarations(self.bytes(), self.cursor(), Seq::empty()) == g_declarations(
                    self.bytes(),
                    parser.cursor(),
                    statement_shapes(statements@),
                ),
            decreases parser.measure(),
        {
            let ghost mid = parser.next_id();
            match parser.next() {
                None => {
                    proof {
                        lemma_covers_distinct(statements_ids(statements@), self.next_id(), mid);
                    }
                    return Ok(statements);
                },
                Some(Err(error)) => {
                    let mut errors: Vec<ParseError> = Vec::new();
                    errors.push(error);
                    loop
                        invariant
                            parser.wf(),
                            errors.len() >= 1,
                            parser.bytes() == self.bytes(),
                            g_declarations(self.bytes(), self.cursor(), Seq::empty()) == Err::<
                                Seq<StatementShape>,
                                Seq<ParseError>,
                            >(g_errors(self.bytes(), parser.cursor(), errors@)),
                            forall|i: int|
                                0 <= i < errors.len() ==> reported_in(
                                    #[trigger] errors@[i],
                                    self.bytes(),
                                ),
                        decreases parser.measure(),
                    {
                        match parser.next() {
                            None => {
                                return Err(errors);
                            },
                            Some(Err(error)) => {
                                errors.push(error);
                            },
                            Some(Ok(_)) => {},
                        }
                    }
                },
                Some(Ok(statement)) => {
                    proof {
                        lemma_statement_shapes_push(statements@, statement);
                        lemma_statements_ids_push(statements@, statement);
                        assert(statements@.push(statement).drop_last() =~= statements@);
                        lemma_covers_join(
                            statements_ids(statements@),
                            statement_ids(statement),
                            self.next_id(),
                            mid,
                            parser.next_id(),
                        );
                    }
                    statements.push(statement);
                },
            }
        }
    }
}

} // verus!

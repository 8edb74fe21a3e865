//! The grammar as the parser reads it, over the lexer's tokens: what a
//! source parses to, or the errors met in it and where parsing stands after
//! each. Parsing walks a cursor through the source; every rule that goes on
//! after a sub-rule checks that the cursor moved forward, which is what
//! makes the rules well founded.

use crate::ast::expression::{
    BinaryOperator, ExpressionShape, LiteralShape, LogicalOperator, ShapeKind, UnaryOperator,
};
use crate::ast::statement::StatementShape;
use crate::lexer::{lemma_lex_kind_from_text, lemma_lex_spelling, lex, LexError};
use crate::parser::ParseError;
use crate::range::Range;
use crate::string::unescape_bytes;
use crate::token::{Keyword, Token, TokenKind};
use vstd::prelude::*;

verus! {

/// Where parsing stands: the offset the next token is read from, how many
/// function bodies it is in, the identity the next expression gets, and
/// whether an error makes the parser skip to the next statement.
pub struct Cursor {
    pub pos: int,
    pub depth: int,
    pub next_id: int,
    pub panicking: bool,
}

/// The text of `bytes` in the span `r`.
pub open spec fn text_at(bytes: Seq<u8>, r: Range) -> Seq<u8> {
    bytes.subrange(r.start as int, r.end as int)
}

/// The next token or error at `c`, if any.
pub open spec fn peek(bytes: Seq<u8>, c: Cursor) -> Option<Result<Token, LexError>> {
    lex(bytes, c.pos).0
}

/// `c` past the next token.
pub open spec fn advance(bytes: Seq<u8>, c: Cursor) -> Cursor {
    Cursor { pos: lex(bytes, c.pos).1, depth: c.depth, next_id: c.next_id, panicking: c.panicking }
}

/// `c` with one more identity handed out.
pub open spec fn bump(c: Cursor) -> Cursor {
    Cursor { pos: c.pos, depth: c.depth, next_id: c.next_id + 1, panicking: c.panicking }
}

/// `c` one function body deeper.
pub open spec fn deeper(c: Cursor) -> Cursor {
    Cursor { pos: c.pos, depth: c.depth + 1, next_id: c.next_id, panicking: c.panicking }
}

/// `c` one function body shallower.
pub open spec fn shallower(c: Cursor) -> Cursor {
    Cursor { pos: c.pos, depth: c.depth - 1, next_id: c.next_id, panicking: c.panicking }
}

/// `c` out of panic mode: the error just met leaves the parser where it is.
pub open spec fn calmed(c: Cursor) -> Cursor {
    Cursor { pos: c.pos, depth: c.depth, next_id: c.next_id, panicking: false }
}

/// `c` back in panic mode.
pub open spec fn alarmed(c: Cursor) -> Cursor {
    Cursor { pos: c.pos, depth: c.depth, next_id: c.next_id, panicking: true }
}

/// Whether `later` stands after `earlier`, within the source.
pub open spec fn beyond(bytes: Seq<u8>, earlier: Cursor, later: Cursor) -> bool {
    earlier.pos < later.pos <= bytes.len()
}

/// Whether `later` stands at or after `earlier`, within the source.
pub open spec fn not_before(bytes: Seq<u8>, earlier: Cursor, later: Cursor) -> bool {
    earlier.pos <= later.pos <= bytes.len()
}

/// An error and where parsing stands after it.
pub struct Failure {
    pub error: ParseError,
    pub at: Cursor,
}

/// What a rule gives: a value and the cursor after it, or the first error
/// met.
pub type Parsed<T> = Result<(T, Cursor), Failure>;

/// The failure where a cursor would not move on from `c`. Tokens are never
/// empty, so this never happens; the checks that could give it keep the
/// rules well founded.
pub open spec fn stalled(c: Cursor) -> Failure {
    Failure { error: ParseError::UnexpectedEndOfInput, at: c }
}

/// The next token, where there is one; otherwise the error in its place,
/// which is consumed.
pub open spec fn g_peek(bytes: Seq<u8>, c: Cursor) -> Result<Token, Failure> {
    match peek(bytes, c) {
        Some(Ok(t)) => Ok(t),
        Some(Err(e)) => Err(Failure { error: ParseError::LexError(e), at: advance(bytes, c) }),
        None => Err(Failure { error: ParseError::UnexpectedEndOfInput, at: advance(bytes, c) }),
    }
}

/// The next token, where it is of kind `kind`, and the cursor past it;
/// whatever comes next is consumed.
pub open spec fn g_expect(bytes: Seq<u8>, c: Cursor, kind: TokenKind) -> Parsed<Token> {
    match g_peek(bytes, c) {
        Ok(t) => if t.kind == kind {
            Ok((t, advance(bytes, c)))
        } else {
            Err(Failure { error: ParseError::UnexpectedToken(t), at: advance(bytes, c) })
        },
        Err(e) => Err(e),
    }
}

/// An expression node with the next identity.
pub open spec fn node(c: Cursor, range: Range, kind: ShapeKind) -> ExpressionShape {
    ExpressionShape { id: c.next_id as usize, range, kind }
}

/// The operators of a level of binary precedence: or (6), and (5),
/// equality (4), comparison (3), sums (2), products (1).
pub enum Operator {
    Logical(LogicalOperator),
    Binary(BinaryOperator),
}

/// The operator that a token of kind `kind` stands for at `level`.
pub open spec fn operator_at(level: int, kind: TokenKind) -> Option<Operator> {
    if level == 6 {
        if kind == TokenKind::Keyword(Keyword::Or) {
            Some(Operator::Logical(LogicalOperator::Or))
        } else {
            None
        }
    } else if level == 5 {
        if kind == TokenKind::Keyword(Keyword::And) {
            Some(Operator::Logical(LogicalOperator::And))
        } else {
            None
        }
    } else if level == 4 {
        match kind {
            TokenKind::EqualEqual => Some(Operator::Binary(BinaryOperator::Equal)),
            TokenKind::BangEqual => Some(Operator::Binary(BinaryOperator::NotEqual)),
            _ => None,
        }
    } else if level == 3 {
        match kind {
            TokenKind::Less => Some(Operator::Binary(BinaryOperator::Less)),
            TokenKind::LessEqual => Some(Operator::Binary(BinaryOperator::LessEqual)),
            TokenKind::Greater => Some(Operator::Binary(BinaryOperator::Greater)),
            TokenKind::GreaterEqual => Some(Operator::Binary(BinaryOperator::GreaterEqual)),
            _ => None,
        }
    } else if level == 2 {
        match kind {
            TokenKind::Plus => Some(Operator::Binary(BinaryOperator::Add)),
            TokenKind::Minus => Some(Operator::Binary(BinaryOperator::Sub)),
            _ => None,
        }
    } else {
        match kind {
            TokenKind::Star => Some(Operator::Binary(BinaryOperator::Mul)),
            TokenKind::Slash => Some(Operator::Binary(BinaryOperator::Div)),
            _ => None,
        }
    }
}

/// The node that joins `lhs` and `rhs` by `operator`.
pub open spec fn joined(
    c: Cursor,
    operator: Operator,
    lhs: ExpressionShape,
    rhs: ExpressionShape,
) -> ExpressionShape {
    node(
        c,
        Range { start: lhs.range.start, end: rhs.range.end },
        match operator {
            Operator::Logical(o) => ShapeKind::Logical {
                operator: o,
                lhs: Box::new(lhs),
                rhs: Box::new(rhs),
            },
            Operator::Binary(o) => ShapeKind::Binary {
                operator: o,
                lhs: Box::new(lhs),
                rhs: Box::new(rhs),
            },
        },
    )
}

/// The prefix operator that a token of kind `kind` stands for.
pub open spec fn unary_operator(kind: TokenKind) -> Option<UnaryOperator> {
    match kind {
        TokenKind::Minus => Some(UnaryOperator::Neg),
        TokenKind::Bang => Some(UnaryOperator::Not),
        _ => None,
    }
}

/// An expression at `c`, and the cursor after it.
pub open spec fn g_expression(bytes: Seq<u8>, c: Cursor) -> Parsed<ExpressionShape>
    decreases bytes.len() - c.pos, 19int,
{
    g_assignment(bytes, c)
}

/// An assignment to a variable, or an expression of higher precedence.
pub open spec fn g_assignment(bytes: Seq<u8>, c: Cursor) -> Parsed<ExpressionShape>
    decreases bytes.len() - c.pos, 18int,
{
    match g_level(bytes, c, 6) {
        Err(e) => Err(e),
        Ok((lhs, c1)) => match peek(bytes, c1) {
            Some(Err(e)) => Err(
                Failure { error: ParseError::LexError(e), at: advance(bytes, c1) },
            ),
            Some(Ok(t)) => if t.kind == TokenKind::Equal {
                let c2 = advance(bytes, c1);
                match lhs.kind {
                    ShapeKind::Variable { name } => if beyond(bytes, c, c2) {
                        match g_assignment(bytes, c2) {
                            Err(e) => Err(e),
                            Ok((value, c3)) => Ok(
                                (
                                    node(
                                        c3,
                                        Range { start: lhs.range.start, end: value.range.end },
                                        ShapeKind::Assignment { name, value: Box::new(value) },
                                    ),
                                    bump(c3),
                                ),
                            ),
                        }
                    } else {
                        Err(stalled(c))
                    },
                    _ => Err(
                        Failure {
                            error: ParseError::InvalidAssignmentTarget { range: lhs.range },
                            at: calmed(c2),
                        },
                    ),
                }
            } else {
                Ok((lhs, c1))
            },
            None => Ok((lhs, c1)),
        },
    }
}

/// An expression of binary precedence `level`, from 6 down to 1; level 0
/// is a prefix operation.
pub open spec fn g_level(bytes: Seq<u8>, c: Cursor, level: int) -> Parsed<ExpressionShape>
    decreases bytes.len() - c.pos, if level <= 0 {
        5int
    } else {
        2 * level + 5
    },
{
    if level <= 0 {
        g_unary(bytes, c)
    } else {
        match g_level(bytes, c, level - 1) {
            Err(e) => Err(e),
            Ok((lhs, c1)) => if not_before(bytes, c, c1) {
                g_level_tail(bytes, c1, level, lhs)
            } else {
                Err(stalled(c))
            },
        }
    }
}

/// The operators of precedence `level` and their right operands that follow
/// the left operand `lhs`, joined from the left.
pub open spec fn g_level_tail(
    bytes: Seq<u8>,
    c: Cursor,
    level: int,
    lhs: ExpressionShape,
) -> Parsed<ExpressionShape>
    decreases bytes.len() - c.pos, if level <= 0 {
        0int
    } else {
        2 * level + 4
    },
{
    if level <= 0 {
        Ok((lhs, c))
    } else {
        match peek(bytes, c) {
            Some(Err(e)) => Err(Failure { error: ParseError::LexError(e), at: advance(bytes, c) }),
            Some(Ok(t)) => match operator_at(level, t.kind) {
                None => Ok((lhs, c)),
                Some(operator) => {
                    let c2 = advance(bytes, c);
                    if beyond(bytes, c, c2) {
                        match g_level(bytes, c2, level - 1) {
                            Err(e) => Err(e),
                            Ok((rhs, c3)) => if not_before(bytes, c2, c3) {
                                g_level_tail(bytes, bump(c3), level, joined(c3, operator, lhs, rhs))
                            } else {
                                Err(stalled(c))
                            },
                        }
                    } else {
                        Err(stalled(c))
                    }
                },
            },
            None => Ok((lhs, c)),
        }
    }
}

/// A prefix operation, or a call or primary expression.
pub open spec fn g_unary(bytes: Seq<u8>, c: Cursor) -> Parsed<ExpressionShape>
    decreases bytes.len() - c.pos, 4int,
{
    match g_peek(bytes, c) {
        Err(e) => Err(e),
        Ok(t) => match unary_operator(t.kind) {
            Some(operator) => {
                let c2 = advance(bytes, c);
                if beyond(bytes, c, c2) {
                    match g_unary(bytes, c2) {
                        Err(e) => Err(e),
                        Ok((rhs, c3)) => Ok(
                            (
                                node(
                                    c3,
                                    Range { start: t.range.start, end: rhs.range.end },
                                    ShapeKind::Unary { operator, rhs: Box::new(rhs) },
                                ),
                                bump(c3),
                            ),
                        ),
                    }
                } else {
                    Err(stalled(c))
                }
            },
            None => g_call(bytes, c),
        },
    }
}

/// A primary expression followed by any number of argument lists.
pub open spec fn g_call(bytes: Seq<u8>, c: Cursor) -> Parsed<ExpressionShape>
    decreases bytes.len() - c.pos, 3int,
{
    match g_primary(bytes, c) {
        Err(e) => Err(e),
        Ok((e, c1)) => if not_before(bytes, c, c1) {
            g_call_tail(bytes, c1, e.range.start, e)
        } else {
            Err(stalled(c))
        },
    }
}

/// The argument lists that follow the callee `e`, whose span starts at
/// `start`.
pub open spec fn g_call_tail(
    bytes: Seq<u8>,
    c: Cursor,
    start: usize,
    e: ExpressionShape,
) -> Parsed<ExpressionShape>
    decreases bytes.len() - c.pos, 2int,
{
    match peek(bytes, c) {
        None => Ok((e, c)),
        Some(Err(x)) => Err(Failure { error: ParseError::LexError(x), at: advance(bytes, c) }),
        Some(Ok(t)) => if t.kind != TokenKind::LParen {
            Ok((e, c))
        } else {
            let c2 = advance(bytes, c);
            if beyond(bytes, c, c2) {
                match g_arguments(bytes, c2, start) {
                    Err(x) => Err(x),
                    Ok((arguments, c3)) => if not_before(bytes, c2, c3) {
                        match g_expect(bytes, c3, TokenKind::RParen) {
                            Err(x) => Err(x),
                            Ok((close, c4)) => if not_before(bytes, c3, c4) {
                                g_call_tail(
                                    bytes,
                                    bump(c4),
                                    start,
                                    node(
                                        c4,
                                        Range { start, end: close.range.end },
                                        ShapeKind::Call { callee: Box::new(e), arguments },
                                    ),
                                )
                            } else {
                                Err(stalled(c))
                            },
                        }
                    } else {
                        Err(stalled(c))
                    },
                }
            } else {
                Err(stalled(c))
            }
        },
    }
}

/// The arguments of a call whose callee starts at `start`, up to the
/// closing parenthesis, which is left.
pub open spec fn g_arguments(bytes: Seq<u8>, c: Cursor, start: usize) -> Parsed<
    Seq<ExpressionShape>,
>
    decreases bytes.len() - c.pos, 21int,
{
    match g_peek(bytes, c) {
        Err(e) => Err(e),
        Ok(t) => if t.kind == TokenKind::RParen {
            Ok((Seq::empty(), c))
        } else {
            g_arguments_from(bytes, c, start, Seq::empty())
        },
    }
}

/// More arguments after `arguments`: an expression, and more after a comma;
/// at most 255 in all.
pub open spec fn g_arguments_from(
    bytes: Seq<u8>,
    c: Cursor,
    start: usize,
    arguments: Seq<ExpressionShape>,
) -> Parsed<Seq<ExpressionShape>>
    decreases bytes.len() - c.pos, 20int,
{
    match g_expression(bytes, c) {
        Err(e) => Err(e),
        Ok((argument, c1)) => if arguments.len() >= 255 {
            Err(
                Failure {
                    error: ParseError::TooManyArguments {
                        range: Range { start, end: argument.range.end },
                    },
                    at: calmed(c1),
                },
            )
        } else {
            let more = arguments.push(argument);
            match g_peek(bytes, c1) {
                Err(e) => Err(e),
                Ok(t) => if t.kind != TokenKind::Comma {
                    Ok((more, c1))
                } else {
                    let c2 = advance(bytes, c1);
                    if beyond(bytes, c, c2) {
                        g_arguments_from(bytes, c2, start, more)
                    } else {
                        Err(stalled(c))
                    }
                },
            }
        },
    }
}

/// A literal, a variable, or a parenthesized expression.
pub open spec fn g_primary(bytes: Seq<u8>, c: Cursor) -> Parsed<ExpressionShape>
    decreases bytes.len() - c.pos, 1int,
{
    match g_peek(bytes, c) {
        Err(e) => Err(e),
        Ok(t) => {
            let c1 = advance(bytes, c);
            if !beyond(bytes, c, c1) {
                Err(stalled(c))
            } else {
                match t.kind {
                    TokenKind::LParen => match g_expression(bytes, c1) {
                        Err(e) => Err(e),
                        Ok((e, c2)) => match g_expect(bytes, c2, TokenKind::RParen) {
                            Err(x) => Err(x),
                            Ok((close, c3)) => Ok(
                                (
                                    node(
                                        c3,
                                        Range { start: t.range.start, end: close.range.end },
                                        ShapeKind::Grouping { expression: Box::new(e) },
                                    ),
                                    bump(c3),
                                ),
                            ),
                        },
                    },
                    TokenKind::String => match string_kind(bytes, t) {
                        Ok(kind) => Ok((node(c1, t.range, kind), bump(c1))),
                        Err(e) => Err(Failure { error: e, at: c1 }),
                    },
                    _ => match atom_kind(bytes, t) {
                        Some(kind) => Ok((node(c1, t.range, kind), bump(c1))),
                        None => Err(Failure { error: ParseError::UnexpectedToken(t), at: c1 }),
                    },
                }
            }
        },
    }
}

/// What a string literal token stands for: its text between the quotes,
/// unescaped; where an escape is bad, an error at the escape's span in the
/// source.
pub open spec fn string_kind(bytes: Seq<u8>, t: Token) -> Result<ShapeKind, ParseError> {
    match unescape_bytes(bytes.subrange(t.range.start + 1, t.range.end - 1)) {
        Ok(value) => Ok(ShapeKind::Literal { value: LiteralShape::String(value) }),
        Err(r) => Err(
            ParseError::InvalidEscapeSequence {
                range: Range {
                    start: (r.start + t.range.start + 1) as usize,
                    end: (r.end + t.range.start + 1) as usize,
                },
            },
        ),
    }
}

/// What a token that makes an expression by itself stands for: a
/// variable, a number, `true`, `false` or `nil`.
pub open spec fn atom_kind(bytes: Seq<u8>, t: Token) -> Option<ShapeKind> {
    match t.kind {
        TokenKind::Identifier => Some(ShapeKind::Variable { name: text_at(bytes, t.range) }),
        TokenKind::Number => Some(
            ShapeKind::Literal { value: LiteralShape::Number(text_at(bytes, t.range)) },
        ),
        TokenKind::Keyword(Keyword::True) => Some(
            ShapeKind::Literal { value: LiteralShape::Boolean(true) },
        ),
        TokenKind::Keyword(Keyword::False) => Some(
            ShapeKind::Literal { value: LiteralShape::Boolean(false) },
        ),
        TokenKind::Keyword(Keyword::Nil) => Some(ShapeKind::Literal { value: LiteralShape::Nil }),
        _ => None,
    }
}

/// A declaration: a function, a variable, or a statement; after an error
/// the parser recovers.
#[verifier::opaque]
pub open spec fn g_declaration(bytes: Seq<u8>, c: Cursor) -> Parsed<StatementShape>
    decreases bytes.len() - c.pos, 40int,
{
    match g_peek(bytes, c) {
        Err(f) => Err(recovered(bytes, f)),
        Ok(t) => match if t.kind == TokenKind::Keyword(Keyword::Fun) {
            g_function(bytes, c)
        } else if t.kind == TokenKind::Keyword(Keyword::Var) {
            g_variable(bytes, c)
        } else {
            g_statement(bytes, c)
        } {
            Err(f) => Err(recovered(bytes, f)),
            Ok(r) => Ok(r),
        },
    }
}

/// Whether a token of kind `kind` starts a statement, where skipping stops.
pub open spec fn starts_statement(kind: TokenKind) -> bool {
    match kind {
        TokenKind::Keyword(Keyword::Print) => true,
        TokenKind::Keyword(Keyword::Class) => true,
        TokenKind::Keyword(Keyword::Fun) => true,
        TokenKind::Keyword(Keyword::Var) => true,
        TokenKind::Keyword(Keyword::While) => true,
        TokenKind::Keyword(Keyword::For) => true,
        TokenKind::Keyword(Keyword::If) => true,
        TokenKind::Keyword(Keyword::Return) => true,
        _ => false,
    }
}

/// `c` skipped to the start of the next statement: just past a semicolon,
/// or before a token that starts a statement, or to the end.
pub open spec fn synchronized(bytes: Seq<u8>, c: Cursor) -> Cursor
    decreases bytes.len() - c.pos,
{
    match peek(bytes, c) {
        None => c,
        Some(Ok(t)) => if starts_statement(t.kind) {
            c
        } else if t.kind == TokenKind::Semicolon {
            advance(bytes, c)
        } else {
            let c1 = advance(bytes, c);
            if beyond(bytes, c, c1) {
                synchronized(bytes, c1)
            } else {
                c1
            }
        },
        Some(Err(_)) => {
            let c1 = advance(bytes, c);
            if beyond(bytes, c, c1) {
                synchronized(bytes, c1)
            } else {
                c1
            }
        },
    }
}

/// Where the parser stands after recovering at `c`: skipped to the next
/// statement in panic mode, back in panic mode otherwise.
pub open spec fn recovery(bytes: Seq<u8>, c: Cursor) -> Cursor {
    if c.panicking {
        synchronized(bytes, c)
    } else {
        alarmed(c)
    }
}

/// The failure `f` after recovering from it.
pub open spec fn recovered(bytes: Seq<u8>, f: Failure) -> Failure {
    Failure { error: f.error, at: recovery(bytes, f.at) }
}

/// A statement, by its first token.
pub open spec fn g_statement(bytes: Seq<u8>, c: Cursor) -> Parsed<StatementShape>
    decreases bytes.len() - c.pos, 38int,
{
    match g_peek(bytes, c) {
        Err(e) => Err(e),
        Ok(t) => match t.kind {
            TokenKind::LBrace => g_block(bytes, c),
            TokenKind::Keyword(Keyword::While) => g_while(bytes, c),
            TokenKind::Keyword(Keyword::For) => g_for(bytes, c),
            TokenKind::Keyword(Keyword::If) => g_if(bytes, c),
            TokenKind::Keyword(Keyword::Print) => g_print(bytes, c),
            TokenKind::Keyword(Keyword::Return) => g_return(bytes, c),
            _ => g_expression_statement(bytes, c),
        },
    }
}

/// An expression and the semicolon after it.
pub open spec fn g_terminated(bytes: Seq<u8>, c: Cursor) -> Parsed<ExpressionShape>
    decreases bytes.len() - c.pos, 22int,
{
    match g_expression(bytes, c) {
        Err(e) => Err(e),
        Ok((e, c1)) => match g_expect(bytes, c1, TokenKind::Semicolon) {
            Err(x) => Err(x),
            Ok((_, c2)) => Ok((e, c2)),
        },
    }
}

/// An expression statement.
pub open spec fn g_expression_statement(bytes: Seq<u8>, c: Cursor) -> Parsed<StatementShape>
    decreases bytes.len() - c.pos, 25int,
{
    match g_terminated(bytes, c) {
        Err(e) => Err(e),
        Ok((e, c1)) => Ok((StatementShape::Expression { expression: e }, c1)),
    }
}

/// A leading keyword of kind `kind` at `c`, and the cursor past it.
pub open spec fn g_keyword(bytes: Seq<u8>, c: Cursor, kind: TokenKind) -> Parsed<Token> {
    match g_expect(bytes, c, kind) {
        Ok((t, c1)) => if beyond(bytes, c, c1) {
            Ok((t, c1))
        } else {
            Err(stalled(c))
        },
        Err(e) => Err(e),
    }
}

/// A print statement.
pub open spec fn g_print(bytes: Seq<u8>, c: Cursor) -> Parsed<StatementShape>
    decreases bytes.len() - c.pos, 26int,
{
    match g_keyword(bytes, c, TokenKind::Keyword(Keyword::Print)) {
        Err(e) => Err(e),
        Ok((_, c1)) => match g_terminated(bytes, c1) {
            Err(e) => Err(e),
            Ok((e, c2)) => Ok((StatementShape::Print { expression: e }, c2)),
        },
    }
}

/// A return statement, inside a function body only.
pub open spec fn g_return(bytes: Seq<u8>, c: Cursor) -> Parsed<StatementShape>
    decreases bytes.len() - c.pos, 27int,
{
    match g_keyword(bytes, c, TokenKind::Keyword(Keyword::Return)) {
        Err(e) => Err(e),
        Ok((keyword, c1)) => if c.depth == 0 {
            Err(
                Failure {
                    error: ParseError::ReturnOutsideFunction { range: keyword.range },
                    at: c1,
                },
            )
        } else {
            match g_peek(bytes, c1) {
                Err(e) => Err(e),
                Ok(t) => if t.kind == TokenKind::Semicolon {
                    Ok(
                        (
                            StatementShape::Return { keyword_range: keyword.range, value: None },
                            advance(bytes, c1),
                        ),
                    )
                } else {
                    match g_terminated(bytes, c1) {
                        Err(e) => Err(e),
                        Ok((e, c2)) => Ok(
                            (
                                StatementShape::Return {
                                    keyword_range: keyword.range,
                                    value: Some(e),
                                },
                                c2,
                            ),
                        ),
                    }
                },
            }
        },
    }
}

/// A parenthesized condition after a keyword of kind `kind`.
pub open spec fn g_condition(bytes: Seq<u8>, c: Cursor, kind: TokenKind) -> Parsed<
    ExpressionShape,
> {
    match g_keyword(bytes, c, kind) {
        Err(e) => Err(e),
        Ok((_, c1)) => match g_expect(bytes, c1, TokenKind::LParen) {
            Err(e) => Err(e),
            Ok((_, c2)) => match g_expression(bytes, c2) {
                Err(e) => Err(e),
                Ok((e, c3)) => match g_expect(bytes, c3, TokenKind::RParen) {
                    Err(x) => Err(x),
                    Ok((_, c4)) => if not_before(bytes, c1, c4) {
                        Ok((e, c4))
                    } else {
                        Err(stalled(c))
                    },
                },
            },
        },
    }
}

/// A while loop.
pub open spec fn g_while(bytes: Seq<u8>, c: Cursor) -> Parsed<StatementShape>
    decreases bytes.len() - c.pos, 31int,
{
    match g_condition(bytes, c, TokenKind::Keyword(Keyword::While)) {
        Err(e) => Err(e),
        Ok((condition, c1)) => if beyond(bytes, c, c1) {
            match g_statement(bytes, c1) {
                Err(e) => Err(e),
                Ok((body, c2)) => Ok(
                    (StatementShape::While { condition, body: Box::new(body) }, c2),
                ),
            }
        } else {
            Err(stalled(c))
        },
    }
}

/// An if statement with an optional else branch.
pub open spec fn g_if(bytes: Seq<u8>, c: Cursor) -> Parsed<StatementShape>
    decreases bytes.len() - c.pos, 33int,
{
    match g_condition(bytes, c, TokenKind::Keyword(Keyword::If)) {
        Err(e) => Err(e),
        Ok((condition, c1)) => if beyond(bytes, c, c1) {
            match g_statement(bytes, c1) {
                Err(e) => Err(e),
                Ok((then_branch, c2)) => if not_before(bytes, c1, c2) {
                    match g_else(bytes, c2) {
                        Err(e) => Err(e),
                        Ok((else_branch, c3)) => Ok(
                            (
                                StatementShape::If {
                                    condition,
                                    then_branch: Box::new(then_branch),
                                    else_branch: match else_branch {
                                        Some(b) => Some(Box::new(b)),
                                        None => None,
                                    },
                                },
                                c3,
                            ),
                        ),
                    }
                } else {
                    Err(stalled(c))
                },
            }
        } else {
            Err(stalled(c))
        },
    }
}

/// The branch after `else`, where an `else` follows.
pub open spec fn g_else(bytes: Seq<u8>, c: Cursor) -> Parsed<Option<StatementShape>>
    decreases bytes.len() - c.pos, 28int,
{
    match peek(bytes, c) {
        Some(Err(e)) => Err(Failure { error: ParseError::LexError(e), at: advance(bytes, c) }),
        Some(Ok(t)) => if t.kind == TokenKind::Keyword(Keyword::Else) {
            let c1 = advance(bytes, c);
            if beyond(bytes, c, c1) {
                match g_statement(bytes, c1) {
                    Err(e) => Err(e),
                    Ok((s, c2)) => Ok((Some(s), c2)),
                }
            } else {
                Err(stalled(c))
            }
        } else {
            Ok((None, c))
        },
        None => Ok((None, c)),
    }
}

/// The initializer of a for loop: nothing before a semicolon, which is
/// left where it is, a variable declaration, or an expression statement.
pub open spec fn g_for_initializer(bytes: Seq<u8>, c: Cursor) -> Parsed<Option<StatementShape>>
    decreases bytes.len() - c.pos, 37int,
{
    match g_peek(bytes, c) {
        Err(e) => Err(e),
        Ok(t) => if t.kind == TokenKind::Semicolon {
            Ok((None, c))
        } else {
            match if t.kind == TokenKind::Keyword(Keyword::Var) {
                g_variable(bytes, c)
            } else {
                g_expression_statement(bytes, c)
            } {
                Err(e) => Err(e),
                Ok((s, c1)) => Ok((Some(s), c1)),
            }
        },
    }
}

/// The condition of a for loop and the semicolon after it: `true`, at the
/// span of the semicolon, where none is written.
pub open spec fn g_for_condition(bytes: Seq<u8>, c: Cursor) -> Parsed<ExpressionShape>
    decreases bytes.len() - c.pos, 24int,
{
    match g_peek(bytes, c) {
        Err(e) => Err(e),
        Ok(t) => if t.kind == TokenKind::Semicolon {
            let c1 = advance(bytes, c);
            Ok(
                (
                    node(c1, t.range, ShapeKind::Literal { value: LiteralShape::Boolean(true) }),
                    bump(c1),
                ),
            )
        } else {
            g_terminated(bytes, c)
        },
    }
}

/// The increment of a for loop, where one is written before the closing
/// parenthesis.
pub open spec fn g_for_increment(bytes: Seq<u8>, c: Cursor) -> Parsed<Option<ExpressionShape>>
    decreases bytes.len() - c.pos, 23int,
{
    match g_peek(bytes, c) {
        Err(e) => Err(e),
        Ok(t) => if t.kind == TokenKind::RParen {
            Ok((None, c))
        } else {
            match g_expression(bytes, c) {
                Err(e) => Err(e),
                Ok((e, c1)) => Ok((Some(e), c1)),
            }
        },
    }
}

/// The loop that a for statement stands for: a while loop whose body runs
/// the increment after the loop's own body, in a block after the
/// initializer.
pub open spec fn for_loop_shape(
    initializer: Option<StatementShape>,
    condition: ExpressionShape,
    increment: Option<ExpressionShape>,
    body: StatementShape,
) -> StatementShape {
    let body = match increment {
        Some(e) => StatementShape::Block {
            statements: seq![body, StatementShape::Expression { expression: e }],
        },
        None => body,
    };
    let looped = StatementShape::While { condition, body: Box::new(body) };
    match initializer {
        Some(s) => StatementShape::Block { statements: seq![s, looped] },
        None => looped,
    }
}

/// A for loop.
pub open spec fn g_for(bytes: Seq<u8>, c: Cursor) -> Parsed<StatementShape>
    decreases bytes.len() - c.pos, 32int,
{
    match g_keyword(bytes, c, TokenKind::Keyword(Keyword::For)) {
        Err(e) => Err(e),
        Ok((_, c1)) => match g_expect(bytes, c1, TokenKind::LParen) {
            Err(e) => Err(e),
            Ok((_, c2)) => if not_before(bytes, c1, c2) {
                match g_for_initializer(bytes, c2) {
                    Err(e) => Err(e),
                    Ok((initializer, c3)) => if not_before(bytes, c2, c3) {
                        match g_for_condition(bytes, c3) {
                            Err(e) => Err(e),
                            Ok((condition, c4)) => if not_before(bytes, c3, c4) {
                                match g_for_increment(bytes, c4) {
                                    Err(e) => Err(e),
                                    Ok((increment, c5)) => match g_expect(
                                        bytes,
                                        c5,
                                        TokenKind::RParen,
                                    ) {
                                        Err(e) => Err(e),
                                        Ok((_, c6)) => if not_before(bytes, c4, c6) {
                                            match g_statement(bytes, c6) {
                                                Err(e) => Err(e),
                                                Ok((body, c7)) => Ok(
                                                    (
                                                        for_loop_shape(
                                                            initializer,
                                                            condition,
                                                            increment,
                                                            body,
                                                        ),
                                                        c7,
                                                    ),
                                                ),
                                            }
                                        } else {
                                            Err(stalled(c))
                                        },
                                    },
                                }
                            } else {
                                Err(stalled(c))
                            },
                        }
                    } else {
                        Err(stalled(c))
                    },
                }
            } else {
                Err(stalled(c))
            },
        },
    }
}

/// A block of declarations in braces.
pub open spec fn g_block(bytes: Seq<u8>, c: Cursor) -> Parsed<StatementShape>
    decreases bytes.len() - c.pos, 30int,
{
    match g_keyword(bytes, c, TokenKind::LBrace) {
        Err(e) => Err(e),
        Ok((_, c1)) => match g_block_from(bytes, c1, Seq::empty()) {
            Err(e) => Err(e),
            Ok((statements, c2)) => Ok((StatementShape::Block { statements }, c2)),
        },
    }
}

/// The declarations of a block after `statements`, up to and past its
/// closing brace.
pub open spec fn g_block_from(
    bytes: Seq<u8>,
    c: Cursor,
    statements: Seq<StatementShape>,
) -> Parsed<Seq<StatementShape>>
    decreases bytes.len() - c.pos, 41int,
{
    match g_peek(bytes, c) {
        Err(e) => Err(e),
        Ok(t) => if t.kind == TokenKind::RBrace {
            Ok((statements, advance(bytes, c)))
        } else {
            match g_declaration(bytes, c) {
                Err(e) => Err(e),
                Ok((s, c1)) => if beyond(bytes, c, c1) {
                    g_block_from(bytes, c1, statements.push(s))
                } else {
                    Err(stalled(c))
                },
            }
        },
    }
}

/// A variable declaration with an optional initializer.
pub open spec fn g_variable(bytes: Seq<u8>, c: Cursor) -> Parsed<StatementShape>
    decreases bytes.len() - c.pos, 35int,
{
    match g_keyword(bytes, c, TokenKind::Keyword(Keyword::Var)) {
        Err(e) => Err(e),
        Ok((_, c1)) => match g_expect(bytes, c1, TokenKind::Identifier) {
            Err(e) => Err(e),
            Ok((name, c2)) => if not_before(bytes, c1, c2) {
                match g_peek(bytes, c2) {
                    Err(e) => Err(e),
                    Ok(t) => match if t.kind == TokenKind::Equal {
                        let c3 = advance(bytes, c2);
                        if not_before(bytes, c2, c3) {
                            match g_expression(bytes, c3) {
                                Err(e) => Err(e),
                                Ok((e, c4)) => Ok((Some(e), c4)),
                            }
                        } else {
                            Err(stalled(c))
                        }
                    } else {
                        Ok((None, c2))
                    } {
                        Err(e) => Err(e),
                        Ok((initializer, c4)) => match g_expect(
                            bytes,
                            c4,
                            TokenKind::Semicolon,
                        ) {
                            Err(e) => Err(e),
                            Ok((_, c5)) => Ok(
                                (
                                    StatementShape::Variable {
                                        name: (text_at(bytes, name.range), name.range),
                                        initializer,
                                    },
                                    c5,
                                ),
                            ),
                        },
                    },
                }
            } else {
                Err(stalled(c))
            },
        },
    }
}

/// The parameters of a function whose declaration starts at `start`, up
/// to the closing parenthesis, which is left.
pub open spec fn g_parameters(bytes: Seq<u8>, c: Cursor, start: usize) -> Parsed<
    Seq<(Seq<u8>, Range)>,
> {
    match g_peek(bytes, c) {
        Err(e) => Err(e),
        Ok(t) => if t.kind == TokenKind::RParen {
            Ok((Seq::empty(), c))
        } else {
            g_parameters_from(bytes, c, start, Seq::empty())
        },
    }
}

/// More parameters after `parameters`: a name, and more after a comma; at
/// most 255 in all.
pub open spec fn g_parameters_from(
    bytes: Seq<u8>,
    c: Cursor,
    start: usize,
    parameters: Seq<(Seq<u8>, Range)>,
) -> Parsed<Seq<(Seq<u8>, Range)>>
    decreases bytes.len() - c.pos,
{
    match g_expect(bytes, c, TokenKind::Identifier) {
        Err(e) => Err(e),
        Ok((name, c1)) => if parameters.len() >= 255 {
            Err(
                Failure {
                    error: ParseError::TooManyArguments {
                        range: Range { start, end: name.range.end },
                    },
                    at: calmed(c1),
                },
            )
        } else {
            let more = parameters.push((text_at(bytes, name.range), name.range));
            match g_peek(bytes, c1) {
                Err(e) => Err(e),
                Ok(t) => if t.kind != TokenKind::Comma {
                    Ok((more, c1))
                } else {
                    let c2 = advance(bytes, c1);
                    if beyond(bytes, c, c2) {
                        g_parameters_from(bytes, c2, start, more)
                    } else {
                        Err(stalled(c))
                    }
                },
            }
        },
    }
}

/// A function declaration; its body is one function deeper.
pub open spec fn g_function(bytes: Seq<u8>, c: Cursor) -> Parsed<StatementShape>
    decreases bytes.len() - c.pos, 36int,
{
    match g_keyword(bytes, c, TokenKind::Keyword(Keyword::Fun)) {
        Err(e) => Err(e),
        Ok((keyword, c1)) => match g_expect(bytes, c1, TokenKind::Identifier) {
            Err(e) => Err(e),
            Ok((name, c2)) => match g_expect(bytes, c2, TokenKind::LParen) {
                Err(e) => Err(e),
                Ok((_, c3)) => match g_parameters(bytes, c3, keyword.range.start) {
                    Err(e) => Err(e),
                    Ok((parameters, c4)) => match g_expect(bytes, c4, TokenKind::RParen) {
                        Err(e) => Err(e),
                        Ok((_, c5)) => match g_expect(bytes, c5, TokenKind::LBrace) {
                            Err(e) => Err(e),
                            Ok((_, c6)) => if not_before(bytes, c1, c6) {
                                match g_body(bytes, deeper(c6), Seq::empty()) {
                                    Err(e) => Err(e),
                                    Ok((body, c7)) => Ok(
                                        (
                                            StatementShape::Function {
                                                name: (text_at(bytes, name.range), name.range),
                                                parameters,
                                                body,
                                            },
                                            c7,
                                        ),
                                    ),
                                }
                            } else {
                                Err(stalled(c))
                            },
                        },
                    },
                },
            },
        },
    }
}

/// The declarations of a function body after `statements`, up to and past
/// its closing brace, which ends the function.
pub open spec fn g_body(bytes: Seq<u8>, c: Cursor, statements: Seq<StatementShape>) -> Parsed<
    Seq<StatementShape>,
>
    decreases bytes.len() - c.pos, 42int,
{
    match g_peek(bytes, c) {
        Err(f) => Err(Failure { error: f.error, at: shallower(f.at) }),
        Ok(t) => if t.kind == TokenKind::RBrace {
            Ok((statements, shallower(advance(bytes, c))))
        } else {
            match g_declaration(bytes, c) {
                Err(e) => Err(e),
                Ok((s, c1)) => if beyond(bytes, c, c1) {
                    g_body(bytes, c1, statements.push(s))
                } else {
                    Err(stalled(c))
                },
            }
        },
    }
}

/// Where parsing a source starts: at its first byte, outside any
/// function, with the first identity, in panic mode.
pub open spec fn start() -> Cursor {
    Cursor { pos: 0, depth: 0, next_id: 0, panicking: true }
}

/// What a whole source parses to: its declarations' shapes, or every error
/// met in it, in order.
pub open spec fn program(bytes: Seq<u8>) -> Result<Seq<StatementShape>, Seq<ParseError>> {
    g_declarations(bytes, start(), Seq::empty())
}

/// The declarations from `c` to the end of the source, after
/// `statements`; or, where one fails, every error met from there on,
/// parsing on after each one.
pub open spec fn g_declarations(
    bytes: Seq<u8>,
    c: Cursor,
    statements: Seq<StatementShape>,
) -> Result<Seq<StatementShape>, Seq<ParseError>>
    decreases bytes.len() - c.pos,
{
    match peek(bytes, c) {
        None => Ok(statements),
        Some(_) => match g_declaration(bytes, c) {
            Err(f) => if beyond(bytes, c, f.at) {
                Err(g_errors(bytes, f.at, seq![f.error]))
            } else {
                Err(seq![f.error])
            },
            Ok((s, c1)) => if beyond(bytes, c, c1) {
                g_declarations(bytes, c1, statements.push(s))
            } else {
                Err(seq![stalled(c).error])
            },
        },
    }
}

/// The errors of the declarations from `c` to the end of the source,
/// after `errors`.
pub open spec fn g_errors(bytes: Seq<u8>, c: Cursor, errors: Seq<ParseError>) -> Seq<ParseError>
    decreases bytes.len() - c.pos,
{
    match peek(bytes, c) {
        None => errors,
        Some(_) => match g_declaration(bytes, c) {
            Err(f) => if beyond(bytes, c, f.at) {
                g_errors(bytes, f.at, errors.push(f.error))
            } else {
                errors.push(f.error)
            },
            Ok((_, c1)) => if beyond(bytes, c, c1) {
                g_errors(bytes, c1, errors)
            } else {
                errors.push(stalled(c).error)
            },
        },
    }
}

/// What `Parser::next` hands out, call after call, from `c` to the end of
/// the source: each declaration or the error met in it.
pub open spec fn declaration_run(bytes: Seq<u8>, c: Cursor) -> Seq<Result<StatementShape, ParseError>>
    decreases bytes.len() - c.pos,
{
    match peek(bytes, c) {
        None => Seq::empty(),
        Some(_) => match g_declaration(bytes, c) {
            Err(f) => if beyond(bytes, c, f.at) {
                seq![Err(f.error)] + declaration_run(bytes, f.at)
            } else {
                seq![Err(f.error)]
            },
            Ok((s, c1)) => if beyond(bytes, c, c1) {
                seq![Ok(s)] + declaration_run(bytes, c1)
            } else {
                seq![Err(stalled(c).error)]
            },
        },
    }
}

/// The errors among `items`, in order.
pub open spec fn errors_in(items: Seq<Result<StatementShape, ParseError>>) -> Seq<ParseError>
    decreases items.len(),
{
    if items.len() == 0 {
        Seq::empty()
    } else {
        match items[0] {
            Err(e) => seq![e] + errors_in(items.drop_first()),
            Ok(_) => errors_in(items.drop_first()),
        }
    }
}

/// The declarations among `items`, in order.
pub open spec fn statements_in(items: Seq<Result<StatementShape, ParseError>>) -> Seq<
    StatementShape,
>
    decreases items.len(),
{
    if items.len() == 0 {
        Seq::empty()
    } else {
        match items[0] {
            Ok(s) => seq![s] + statements_in(items.drop_first()),
            Err(_) => statements_in(items.drop_first()),
        }
    }
}

/// The errors and declarations of one item followed by more.
pub proof fn lemma_in_prepend(x: Result<StatementShape, ParseError>, rest: Seq<Result<StatementShape, ParseError>>)
    ensures
        errors_in(seq![x] + rest) == match x {
            Err(e) => seq![e] + errors_in(rest),
            Ok(_) => errors_in(rest),
        },
        statements_in(seq![x] + rest) == match x {
            Ok(s) => seq![s] + statements_in(rest),
            Err(_) => statements_in(rest),
        },
{
    let items = seq![x] + rest;
    assert(items[0] == x);
    assert(items.drop_first() =~= rest);
}

/// Collecting errors from `c` on adds the errors of the run from there.
pub proof fn lemma_errors_run(bytes: Seq<u8>, c: Cursor, errors: Seq<ParseError>)
    ensures
        g_errors(bytes, c, errors) == errors + errors_in(declaration_run(bytes, c)),
    decreases bytes.len() - c.pos,
{
    let run = declaration_run(bytes, c);
    match peek(bytes, c) {
        None => {
            assert(errors + Seq::<ParseError>::empty() =~= errors);
        },
        Some(_) => match g_declaration(bytes, c) {
            Err(f) => {
                if beyond(bytes, c, f.at) {
                    lemma_errors_run(bytes, f.at, errors.push(f.error));
                    lemma_in_prepend(Err(f.error), declaration_run(bytes, f.at));
                    assert(errors.push(f.error) + errors_in(declaration_run(bytes, f.at)) =~= errors
                        + (seq![f.error] + errors_in(declaration_run(bytes, f.at))));
                } else {
                    lemma_in_prepend(Err(f.error), Seq::empty());
                    assert(run =~= seq![Err(f.error)] + Seq::<Result<StatementShape, ParseError>>::empty());
                    assert(errors.push(f.error) =~= errors + (seq![f.error] + Seq::<ParseError>::empty()));
                }
            },
            Ok((s, c1)) => {
                if beyond(bytes, c, c1) {
                    lemma_errors_run(bytes, c1, errors);
                    lemma_in_prepend(Ok(s), declaration_run(bytes, c1));
                } else {
                    let e = stalled(c).error;
                    lemma_in_prepend(Err(e), Seq::empty());
                    assert(run =~= seq![Err(e)] + Seq::<Result<StatementShape, ParseError>>::empty());
                    assert(errors.push(e) =~= errors + (seq![e] + Seq::<ParseError>::empty()));
                }
            },
        },
    }
}

/// Parsing all declarations from `c` is running `Parser::next` to the end:
/// the declarations of the run, in order, where it met no error, and
/// otherwise every error of the run, in order, and no declaration.
pub proof fn lemma_declarations_run(bytes: Seq<u8>, c: Cursor, statements: Seq<StatementShape>)
    ensures
        g_declarations(bytes, c, statements) == if errors_in(declaration_run(bytes, c)).len() == 0 {
            Ok::<Seq<StatementShape>, Seq<ParseError>>(
                statements + statements_in(declaration_run(bytes, c)),
            )
        } else {
            Err(errors_in(declaration_run(bytes, c)))
        },
    decreases bytes.len() - c.pos,
{
    let run = declaration_run(bytes, c);
    match peek(bytes, c) {
        None => {
            assert(statements + Seq::<StatementShape>::empty() =~= statements);
        },
        Some(_) => match g_declaration(bytes, c) {
            Err(f) => {
                if beyond(bytes, c, f.at) {
                    lemma_errors_run(bytes, f.at, seq![f.error]);
                    lemma_in_prepend(Err(f.error), declaration_run(bytes, f.at));
                } else {
                    lemma_in_prepend(Err(f.error), Seq::empty());
                    assert(run =~= seq![Err(f.error)] + Seq::<Result<StatementShape, ParseError>>::empty());
                    assert(seq![f.error] + Seq::<ParseError>::empty() =~= seq![f.error]);
                }
            },
            Ok((s, c1)) => {
                if beyond(bytes, c, c1) {
                    lemma_declarations_run(bytes, c1, statements.push(s));
                    lemma_in_prepend(Ok(s), declaration_run(bytes, c1));
                    assert(statements.push(s) + statements_in(declaration_run(bytes, c1)) =~= statements
                        + (seq![s] + statements_in(declaration_run(bytes, c1))));
                } else {
                    let e = stalled(c).error;
                    lemma_in_prepend(Err(e), Seq::empty());
                    assert(run =~= seq![Err(e)] + Seq::<Result<StatementShape, ParseError>>::empty());
                    assert(seq![e] + Seq::<ParseError>::empty() =~= seq![e]);
                }
            },
        },
    }
}


/// How a binary operator is written in the source.
pub open spec fn binary_spelling(operator: BinaryOperator) -> Seq<u8> {
    match operator {
        BinaryOperator::Add => seq!['+' as u8],
        BinaryOperator::Sub => seq!['-' as u8],
        BinaryOperator::Mul => seq!['*' as u8],
        BinaryOperator::Div => seq!['/' as u8],
        BinaryOperator::Less => seq!['<' as u8],
        BinaryOperator::LessEqual => seq!['<' as u8, '=' as u8],
        BinaryOperator::Greater => seq!['>' as u8],
        BinaryOperator::GreaterEqual => seq!['>' as u8, '=' as u8],
        BinaryOperator::Equal => seq!['=' as u8, '=' as u8],
        BinaryOperator::NotEqual => seq!['!' as u8, '=' as u8],
    }
}

/// How a logical operator is written in the source.
pub open spec fn logical_spelling(operator: LogicalOperator) -> Seq<u8> {
    match operator {
        LogicalOperator::And => seq!['a' as u8, 'n' as u8, 'd' as u8],
        LogicalOperator::Or => seq!['o' as u8, 'r' as u8],
    }
}

/// The operator that the parser reads from the next token, at any level of
/// precedence, is the one written there in the source: `>=` gives
/// greater-or-equal, `<` less, `and` the logical and, and so on.
pub proof fn lemma_operator_as_written(bytes: Seq<u8>, c: Cursor, level: int)
    requires
        0 <= c.pos <= bytes.len() <= isize::MAX,
    ensures
        peek(bytes, c) matches Some(Ok(t)) ==> match operator_at(level, t.kind) {
            Some(Operator::Binary(operator)) => text_at(bytes, t.range) == binary_spelling(operator),
            Some(Operator::Logical(operator)) => text_at(bytes, t.range) == logical_spelling(
                operator,
            ),
            None => true,
        },
{
    lemma_lex_spelling(bytes, c.pos);
}

/// The literal that the parser reads from a keyword is the value the
/// keyword names in the source: the word `true` gives true, `false` gives
/// false, and `nil` gives nil.
pub proof fn lemma_literal_as_written(bytes: Seq<u8>, c: Cursor)
    requires
        0 <= c.pos <= bytes.len() <= isize::MAX,
    ensures
        peek(bytes, c) matches Some(Ok(t)) ==> match atom_kind(bytes, t) {
            Some(ShapeKind::Literal { value: LiteralShape::Boolean(b) }) => text_at(bytes, t.range)
                == if b {
                seq!['t' as u8, 'r' as u8, 'u' as u8, 'e' as u8]
            } else {
                seq!['f' as u8, 'a' as u8, 'l' as u8, 's' as u8, 'e' as u8]
            },
            Some(ShapeKind::Literal { value: LiteralShape::Nil }) => text_at(bytes, t.range) == seq![
                'n' as u8,
                'i' as u8,
                'l' as u8,
            ],
            _ => true,
        },
{
    lemma_lex_spelling(bytes, c.pos);
}


/// The level of precedence a binary operator binds at: products 1, sums 2,
/// comparisons 3, equality 4.
pub open spec fn binary_level(operator: BinaryOperator) -> int {
    match operator {
        BinaryOperator::Mul | BinaryOperator::Div => 1,
        BinaryOperator::Add | BinaryOperator::Sub => 2,
        BinaryOperator::Less | BinaryOperator::LessEqual | BinaryOperator::Greater
        | BinaryOperator::GreaterEqual => 3,
        BinaryOperator::Equal | BinaryOperator::NotEqual => 4,
    }
}

/// A token written as a binary operator is read as that operator, at that
/// operator's level: a comparison written `>=` is greater-or-equal, one
/// written `<` is less, and so on for every operator.
pub proof fn lemma_operator_read_as_written(bytes: Seq<u8>, c: Cursor, operator: BinaryOperator)
    requires
        0 <= c.pos <= bytes.len() <= isize::MAX,
    ensures
        peek(bytes, c) matches Some(Ok(t)) ==> (t.range.end <= bytes.len() && text_at(
            bytes,
            t.range,
        ) == binary_spelling(operator) ==> operator_at(binary_level(operator), t.kind) == Some(
            Operator::Binary(operator),
        )),
{
    let kind = match operator {
        BinaryOperator::Add => TokenKind::Plus,
        BinaryOperator::Sub => TokenKind::Minus,
        BinaryOperator::Mul => TokenKind::Star,
        BinaryOperator::Div => TokenKind::Slash,
        BinaryOperator::Less => TokenKind::Less,
        BinaryOperator::LessEqual => TokenKind::LessEqual,
        BinaryOperator::Greater => TokenKind::Greater,
        BinaryOperator::GreaterEqual => TokenKind::GreaterEqual,
        BinaryOperator::Equal => TokenKind::EqualEqual,
        BinaryOperator::NotEqual => TokenKind::BangEqual,
    };
    lemma_lex_kind_from_text(bytes, c.pos, kind);
}

/// A token written `and` is read as the logical and at its level (5), one
/// written `or` as the logical or at its level (6).
pub proof fn lemma_logical_read_as_written(bytes: Seq<u8>, c: Cursor)
    requires
        0 <= c.pos <= bytes.len() <= isize::MAX,
    ensures
        peek(bytes, c) matches Some(Ok(t)) ==> (t.range.end <= bytes.len() ==> {
            &&& text_at(bytes, t.range) == logical_spelling(LogicalOperator::And) ==> operator_at(
                5,
                t.kind,
            ) == Some(Operator::Logical(LogicalOperator::And))
            &&& text_at(bytes, t.range) == logical_spelling(LogicalOperator::Or) ==> operator_at(
                6,
                t.kind,
            ) == Some(Operator::Logical(LogicalOperator::Or))
        }),
{
    lemma_lex_kind_from_text(bytes, c.pos, TokenKind::Keyword(Keyword::And));
    lemma_lex_kind_from_text(bytes, c.pos, TokenKind::Keyword(Keyword::Or));
}

/// A token written `true`, `false` or `nil` is read as the literal that
/// word names.
pub proof fn lemma_literal_read_as_written(bytes: Seq<u8>, c: Cursor)
    requires
        0 <= c.pos <= bytes.len() <= isize::MAX,
    ensures
        peek(bytes, c) matches Some(Ok(t)) ==> (t.range.end <= bytes.len() ==> {
            &&& text_at(bytes, t.range) == seq!['t' as u8, 'r' as u8, 'u' as u8, 'e' as u8]
                ==> atom_kind(bytes, t) == Some(
                ShapeKind::Literal { value: LiteralShape::Boolean(true) },
            )
            &&& text_at(bytes, t.range) == seq!['f' as u8, 'a' as u8, 'l' as u8, 's' as u8, 'e' as u8]
                ==> atom_kind(bytes, t) == Some(
                ShapeKind::Literal { value: LiteralShape::Boolean(false) },
            )
            &&& text_at(bytes, t.range) == seq!['n' as u8, 'i' as u8, 'l' as u8] ==> atom_kind(
                bytes,
                t,
            ) == Some(ShapeKind::Literal { value: LiteralShape::Nil })
        }),
{
    lemma_lex_kind_from_text(bytes, c.pos, TokenKind::Keyword(Keyword::True));
    lemma_lex_kind_from_text(bytes, c.pos, TokenKind::Keyword(Keyword::False));
    lemma_lex_kind_from_text(bytes, c.pos, TokenKind::Keyword(Keyword::Nil));
}

} // verus!

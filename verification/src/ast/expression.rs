//! Expressions.

use crate::range::Range;
use crate::string::LoxString;
use vstd::prelude::*;
use vstd::string::StringSliceAdditionalSpecFns;

verus! {

/// An expression: its identity, its span in the source, and its form.
#[derive(Debug)]
pub struct Expression<'a> {
    pub id: ExpressionId,
    pub range: Range,
    pub kind: ExpressionKind<'a>,
}

/// The forms of expressions.
#[derive(Debug)]
pub enum ExpressionKind<'a> {
    Logical { operator: LogicalOperator, lhs: Box<Expression<'a>>, rhs: Box<Expression<'a>> },
    Assignment { name: &'a str, value: Box<Expression<'a>> },
    Binary { operator: BinaryOperator, lhs: Box<Expression<'a>>, rhs: Box<Expression<'a>> },
    Unary { operator: UnaryOperator, rhs: Box<Expression<'a>> },
    Call { callee: Box<Expression<'a>>, arguments: Vec<Expression<'a>> },
    Grouping { expression: Box<Expression<'a>> },
    Variable { name: &'a str },
    Literal(Literal<'a>),
}

/// The short-circuiting operators.
#[derive(Debug, Clone, Copy, PartialEq, Eq, Structural)]
pub enum LogicalOperator {
    And,
    Or,
}

/// The binary operators that evaluate both operands.
#[derive(Debug, Clone, Copy, PartialEq, Eq, Structural)]
pub enum BinaryOperator {
    Add,
    Sub,
    Mul,
    Div,
    Less,
    LessEqual,
    Greater,
    GreaterEqual,
    Equal,
    NotEqual,
}

/// The prefix operators.
#[derive(Debug, Clone, Copy, PartialEq, Eq, Structural)]
pub enum UnaryOperator {
    Neg,
    Not,
}

/// Literal values. A number is kept as its source text, the digits with an
/// optional fraction, which the evaluator reads as a number.
#[derive(Debug)]
pub enum Literal<'a> {
    String(LoxString<'a>),
    Number(&'a str),
    Boolean(bool),
    Nil,
}

/// The identity of an expression node, unique within a parse.
#[derive(Debug, Clone, Copy, PartialEq, Eq, Hash, Structural)]
pub struct ExpressionId(pub(crate) usize);

impl ExpressionId {
    /// The number behind the identity.
    pub closed spec fn value(self) -> usize {
        self.0
    }

    /// The number behind the identity.
    pub fn index(&self) -> (r: usize)
        ensures
            r == self.value(),
    {
        self.0
    }
}

impl<'a> Expression<'a> {
    /// A logical expression.
    pub fn logical(
        id: ExpressionId,
        range: Range,
        operator: LogicalOperator,
        lhs: Self,
        rhs: Self,
    ) -> (e: Self)
        ensures
            e == (Expression {
                id,
                range,
                kind: ExpressionKind::Logical { operator, lhs: Box::new(lhs), rhs: Box::new(rhs) },
            }),
    {
        let lhs = Box::new(lhs);
        let rhs = Box::new(rhs);
        let kind = ExpressionKind::Logical { operator, lhs, rhs };
        Self { id, range, kind }
    }

    /// An assignment to the variable `name`.
    pub fn assignment(id: ExpressionId, range: Range, name: &'a str, value: Self) -> (e: Self)
        ensures
            e == (Expression {
                id,
                range,
                kind: ExpressionKind::Assignment { name, value: Box::new(value) },
            }),
    {
        let value = Box::new(value);
        let kind = ExpressionKind::Assignment { name, value };
        Self { id, range, kind }
    }

    /// A binary expression.
    pub fn binary(
        id: ExpressionId,
        range: Range,
        operator: BinaryOperator,
        lhs: Self,
        rhs: Self,
    ) -> (e: Self)
        ensures
            e == (Expression {
                id,
                range,
                kind: ExpressionKind::Binary { operator, lhs: Box::new(lhs), rhs: Box::new(rhs) },
            }),
    {
        let lhs = Box::new(lhs);
        let rhs = Box::new(rhs);
        let kind = ExpressionKind::Binary { operator, lhs, rhs };
        Self { id, range, kind }
    }

    /// A unary expression.
    pub fn unary(id: ExpressionId, range: Range, operator: UnaryOperator, rhs: Self) -> (e: Self)
        ensures
            e == (Expression {
                id,
                range,
                kind: ExpressionKind::Unary { operator, rhs: Box::new(rhs) },
            }),
    {
        let rhs = Box::new(rhs);
        let kind = ExpressionKind::Unary { operator, rhs };
        Self { id, range, kind }
    }

    /// A call of `callee` with `arguments`.
    pub fn call(id: ExpressionId, range: Range, callee: Self, arguments: Vec<Self>) -> (e: Self)
        ensures
            e == (Expression {
                id,
                range,
                kind: ExpressionKind::Call { callee: Box::new(callee), arguments },
            }),
    {
        let callee = Box::new(callee);
        let kind = ExpressionKind::Call { callee, arguments };
        Self { id, range, kind }
    }

    /// A parenthesized expression.
    pub fn grouping(id: ExpressionId, range: Range, expression: Self) -> (e: Self)
        ensures
            e == (Expression {
                id,
                range,
                kind: ExpressionKind::Grouping { expression: Box::new(expression) },
            }),
    {
        let expression = Box::new(expression);
        let kind = ExpressionKind::Grouping { expression };
        Self { id, range, kind }
    }

    /// A reference to the variable `name`.
    pub fn variable(id: ExpressionId, range: Range, name: &'a str) -> (e: Self)
        ensures
            e == (Expression { id, range, kind: ExpressionKind::Variable { name } }),
    {
        let kind = ExpressionKind::Variable { name };
        Self { id, range, kind }
    }

    /// A literal.
    pub fn literal(id: ExpressionId, range: Range, literal: Literal<'a>) -> (e: Self)
        ensures
            e == (Expression { id, range, kind: ExpressionKind::Literal(literal) }),
    {
        let kind = ExpressionKind::Literal(literal);
        Self { id, range, kind }
    }
}

/// Hands out expression identities in increasing order.
#[derive(Debug, Default)]
pub struct ExpressionIdGenerator {
    next: usize,
}

impl ExpressionIdGenerator {
    /// The identity that the next call hands out.
    pub closed spec fn upcoming(&self) -> int {
        self.next as int
    }

    /// The identities handed out so far, in the order they were handed out:
    /// a generator starts from zero and counts up, so these are the numbers
    /// below `upcoming`.
    pub closed spec fn issued(&self) -> Seq<usize> {
        Seq::new(self.next as nat, |k: int| k as usize)
    }

    /// The `k`-th identity handed out is `k`, so no two of them are equal.
    pub proof fn lemma_issued(&self)
        ensures
            self.issued().len() == self.upcoming(),
            forall|k: int| 0 <= k < self.issued().len() ==> #[trigger] self.issued()[k] == k,
            forall|i: int, j: int|
                0 <= i < j < self.issued().len() ==> self.issued()[i] != self.issued()[j],
    {
    }

    /// A generator that starts from zero.
    pub fn new() -> (g: Self)
        ensures
            g.upcoming() == 0,
            g.issued() == Seq::<usize>::empty(),
    {
        proof {
            assert(Seq::new(0nat, |k: int| k as usize) =~= Seq::<usize>::empty());
        }
        ExpressionIdGenerator { next: 0 }
    }

    /// A fresh identity: the one after the last one handed out.
    pub fn next_id(&mut self) -> (id: ExpressionId)
        requires
            old(self).upcoming() < usize::MAX,
        ensures
            id.value() == old(self).upcoming(),
            final(self).upcoming() == old(self).upcoming() + 1,
            final(self).issued() == old(self).issued().push(id.value()),
            !old(self).issued().contains(id.value()),
    {
        proof {
            assert(Seq::new((self.next + 1) as nat, |k: int| k as usize) =~= Seq::new(
                self.next as nat,
                |k: int| k as usize,
            ).push(self.next));
        }
        let id = self.next;
        self.next = self.next + 1;
        ExpressionId(id)
    }
}

/// The identities of an expression's nodes, operands before the node
/// itself, left to right.
pub open spec fn expression_ids(e: Expression) -> Seq<usize>
    decreases e,
{
    match e.kind {
        ExpressionKind::Logical { lhs, rhs, .. } => expression_ids(*lhs) + expression_ids(*rhs)
            + seq![e.id.value()],
        ExpressionKind::Assignment { value, .. } => expression_ids(*value) + seq![e.id.value()],
        ExpressionKind::Binary { lhs, rhs, .. } => expression_ids(*lhs) + expression_ids(*rhs)
            + seq![e.id.value()],
        ExpressionKind::Unary { rhs, .. } => expression_ids(*rhs) + seq![e.id.value()],
        ExpressionKind::Call { callee, arguments } => expression_ids(*callee) + expressions_ids(
            arguments@,
        ) + seq![e.id.value()],
        ExpressionKind::Grouping { expression } => expression_ids(*expression) + seq![
            e.id.value(),
        ],
        ExpressionKind::Variable { .. } => seq![e.id.value()],
        ExpressionKind::Literal(_) => seq![e.id.value()],
    }
}

/// The identities of the nodes of expressions, in order.
pub open spec fn expressions_ids(es: Seq<Expression>) -> Seq<usize>
    decreases es,
{
    if es.len() == 0 {
        Seq::empty()
    } else {
        expressions_ids(es.drop_last()) + expression_ids(es.last())
    }
}

/// Whether `ids` are distinct numbers from `lo` up to, not including, `hi`.
pub closed spec fn covers(ids: Seq<usize>, lo: int, hi: int) -> bool {
    &&& lo <= hi
    &&& ids.no_duplicates()
    &&& forall|i: int| 0 <= i < ids.len() ==> lo <= #[trigger] ids[i] < hi
}

/// What `covers` states: distinct numbers, each in the span.
pub proof fn lemma_covers_distinct(ids: Seq<usize>, lo: int, hi: int)
    requires
        covers(ids, lo, hi),
    ensures
        ids.no_duplicates(),
        forall|i: int| 0 <= i < ids.len() ==> lo <= #[trigger] ids[i] < hi,
{
}

/// No identity lies in an empty span.
pub proof fn lemma_covers_empty(lo: int)
    ensures
        covers(Seq::<usize>::empty(), lo, lo),
{
}

/// Numbers within a span lie within any span around it.
pub proof fn lemma_covers_widen(ids: Seq<usize>, lo: int, hi: int, lo2: int, hi2: int)
    requires
        covers(ids, lo, hi),
        lo2 <= lo,
        hi <= hi2,
    ensures
        covers(ids, lo2, hi2),
{
}

/// One identity covers its own span.
pub proof fn lemma_covers_single(id: usize)
    ensures
        covers(seq![id], id as int, id + 1),
{
}

/// Adjacent spans cover their union, in either order.
pub proof fn lemma_covers_join(a: Seq<usize>, b: Seq<usize>, lo: int, mid: int, hi: int)
    requires
        covers(a, lo, mid),
        covers(b, mid, hi),
    ensures
        covers(a + b, lo, hi),
        covers(b + a, lo, hi),
{
    let ab = a + b;
    let ba = b + a;
    assert forall|i: int, j: int| 0 <= i < ab.len() && 0 <= j < ab.len() && i != j implies ab[i]
        != ab[j] by {
        if i < a.len() && j >= a.len() {
            assert(ab[i] < mid <= ab[j]);
        } else if i >= a.len() && j < a.len() {
            assert(ab[j] < mid <= ab[i]);
        } else if i < a.len() {
            assert(a[i] != a[j]);
        } else {
            assert(b[i - a.len()] != b[j - a.len()]);
        }
    }
    assert forall|i: int, j: int| 0 <= i < ba.len() && 0 <= j < ba.len() && i != j implies ba[i]
        != ba[j] by {
        if i < b.len() && j >= b.len() {
            assert(ba[j] < mid <= ba[i]);
        } else if i >= b.len() && j < b.len() {
            assert(ba[i] < mid <= ba[j]);
        } else if i < b.len() {
            assert(b[i] != b[j]);
        } else {
            assert(a[i - b.len()] != a[j - b.len()]);
        }
    }
    assert forall|i: int| 0 <= i < ab.len() implies lo <= #[trigger] ab[i] < hi by {
        if i < a.len() {
            assert(ab[i] == a[i]);
        } else {
            assert(ab[i] == b[i - a.len()]);
        }
    }
    assert forall|i: int| 0 <= i < ba.len() implies lo <= #[trigger] ba[i] < hi by {
        if i < b.len() {
            assert(ba[i] == b[i]);
        } else {
            assert(ba[i] == a[i - b.len()]);
        }
    }
}

/// An expression as the grammar speaks of it: its identity, its span, and
/// its form, with names and texts as UTF-8 bytes.
pub struct ExpressionShape {
    pub id: usize,
    pub range: Range,
    pub kind: ShapeKind,
}

/// The forms of expression shapes.
pub enum ShapeKind {
    Logical { operator: LogicalOperator, lhs: Box<ExpressionShape>, rhs: Box<ExpressionShape> },
    Assignment { name: Seq<u8>, value: Box<ExpressionShape> },
    Binary { operator: BinaryOperator, lhs: Box<ExpressionShape>, rhs: Box<ExpressionShape> },
    Unary { operator: UnaryOperator, rhs: Box<ExpressionShape> },
    Call { callee: Box<ExpressionShape>, arguments: Seq<ExpressionShape> },
    Grouping { expression: Box<ExpressionShape> },
    Variable { name: Seq<u8> },
    Literal { value: LiteralShape },
}

/// Literal values, a string by the bytes of its value and a number by its
/// digits.
pub enum LiteralShape {
    String(Seq<u8>),
    Number(Seq<u8>),
    Boolean(bool),
    Nil,
}

/// The shape of an expression.
pub open spec fn shape(e: Expression) -> ExpressionShape
    decreases e,
{
    ExpressionShape {
        id: e.id.value(),
        range: e.range,
        kind: match e.kind {
            ExpressionKind::Logical { operator, lhs, rhs } => ShapeKind::Logical {
                operator,
                lhs: Box::new(shape(*lhs)),
                rhs: Box::new(shape(*rhs)),
            },
            ExpressionKind::Assignment { name, value } => ShapeKind::Assignment {
                name: name.spec_bytes(),
                value: Box::new(shape(*value)),
            },
            ExpressionKind::Binary { operator, lhs, rhs } => ShapeKind::Binary {
                operator,
                lhs: Box::new(shape(*lhs)),
                rhs: Box::new(shape(*rhs)),
            },
            ExpressionKind::Unary { operator, rhs } => ShapeKind::Unary {
                operator,
                rhs: Box::new(shape(*rhs)),
            },
            ExpressionKind::Call { callee, arguments } => ShapeKind::Call {
                callee: Box::new(shape(*callee)),
                arguments: shapes(arguments@),
            },
            ExpressionKind::Grouping { expression } => ShapeKind::Grouping {
                expression: Box::new(shape(*expression)),
            },
            ExpressionKind::Variable { name } => ShapeKind::Variable { name: name.spec_bytes() },
            ExpressionKind::Literal(literal) => ShapeKind::Literal {
                value: match literal {
                    Literal::String(s) => LiteralShape::String(s@),
                    Literal::Number(digits) => LiteralShape::Number(digits.spec_bytes()),
                    Literal::Boolean(b) => LiteralShape::Boolean(b),
                    Literal::Nil => LiteralShape::Nil,
                },
            },
        },
    }
}

/// The shapes of expressions, in order.
pub open spec fn shapes(es: Seq<Expression>) -> Seq<ExpressionShape>
    decreases es,
{
    if es.len() == 0 {
        Seq::empty()
    } else {
        shapes(es.drop_last()).push(shape(es.last()))
    }
}

/// Shaping keeps the number of expressions.
pub proof fn lemma_shapes_len(es: Seq<Expression>)
    ensures
        shapes(es).len() == es.len(),
    decreases es.len(),
{
    if es.len() > 0 {
        lemma_shapes_len(es.drop_last());
    }
}

/// The shapes of `es` with `e` pushed are the shapes of `es` with the shape
/// of `e` pushed.
pub proof fn lemma_shapes_push(es: Seq<Expression>, e: Expression)
    ensures
        shapes(es.push(e)) == shapes(es).push(shape(e)),
{
    assert(es.push(e).drop_last() =~= es);
}

} // verus!

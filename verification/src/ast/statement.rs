//! Statements.

use super::expression::{expression_ids, shape, Expression, ExpressionShape};
use crate::range::Range;
use std::rc::Rc;
use vstd::prelude::*;
use vstd::string::StringSliceAdditionalSpecFns;

verus! {

/// A name as written in the source, with its span.
#[derive(Debug, Clone, Copy)]
pub struct Identifier<'a> {
    pub text: &'a str,
    pub range: Range,
}

/// The forms of statements.
#[derive(Debug)]
pub enum Statement<'a> {
    FunctionDeclaration { declaration: Rc<FunctionDeclaration<'a>> },
    VariableDeclaration { name: Identifier<'a>, initializer: Option<Expression<'a>> },
    Block { statements: Vec<Statement<'a>> },
    While { condition: Expression<'a>, body: Box<Statement<'a>> },
    If {
        condition: Expression<'a>,
        then_branch: Box<Statement<'a>>,
        else_branch: Option<Box<Statement<'a>>>,
    },
    Print { expression: Expression<'a> },
    Return { keyword_range: Range, value: Option<Expression<'a>> },
    Expression { expression: Expression<'a> },
}

/// A function's name, parameters and body.
#[derive(Debug)]
pub struct FunctionDeclaration<'a> {
    pub name: Identifier<'a>,
    pub parameters: Vec<Identifier<'a>>,
    pub body: Vec<Statement<'a>>,
}

impl<'a> FunctionDeclaration<'a> {
    /// The name the function was declared under.
    pub fn name(&self) -> (r: &'a str)
        ensures
            r@ == self.name.text@,
    {
        self.name.text
    }

    /// How many arguments a call of the function takes.
    pub fn arity(&self) -> (r: usize)
        ensures
            r == self.parameters@.len(),
    {
        self.parameters.len()
    }
}

impl<'a> Statement<'a> {
    /// A function declaration.
    pub fn function_declaration(
        name: Identifier<'a>,
        parameters: Vec<Identifier<'a>>,
        body: Vec<Self>,
    ) -> (s: Self)
        ensures
            s == (Statement::FunctionDeclaration {
                declaration: Rc::new(FunctionDeclaration { name, parameters, body }),
            }),
    {
        let declaration = FunctionDeclaration { name, parameters, body };
        let declaration = Rc::new(declaration);
        Self::FunctionDeclaration { declaration }
    }

    /// A variable declaration.
    pub fn variable_declaration(name: Identifier<'a>, initializer: Option<Expression<'a>>) -> (s:
        Self)
        ensures
            s == (Statement::VariableDeclaration { name, initializer }),
    {
        Self::VariableDeclaration { name, initializer }
    }

    /// A block.
    pub fn block(statements: Vec<Self>) -> (s: Self)
        ensures
            s == (Statement::Block { statements }),
    {
        Self::Block { statements }
    }

    /// A while loop.
    pub fn while_statement(condition: Expression<'a>, body: Self) -> (s: Self)
        ensures
            s == (Statement::While { condition, body: Box::new(body) }),
    {
        let body = Box::new(body);
        Self::While { condition, body }
    }

    /// An if statement.
    pub fn if_statement(condition: Expression<'a>, then_branch: Self, else_branch: Option<Self>) -> (s:
        Self)
        ensures
            s == (Statement::If {
                condition,
                then_branch: Box::new(then_branch),
                else_branch: match else_branch {
                    Some(b) => Some(Box::new(b)),
                    None => None,
                },
            }),
    {
        let then_branch = Box::new(then_branch);
        let else_branch = match else_branch {
            Some(branch) => Some(Box::new(branch)),
            None => None,
        };
        Self::If { condition, then_branch, else_branch }
    }

    /// A print statement.
    pub fn print(expression: Expression<'a>) -> (s: Self)
        ensures
            s == (Statement::Print { expression }),
    {
        Self::Print { expression }
    }

    /// A return statement.
    pub fn return_statement(keyword_range: Range, value: Option<Expression<'a>>) -> (s: Self)
        ensures
            s == (Statement::Return { keyword_range, value }),
    {
        Self::Return { keyword_range, value }
    }

    /// An expression statement.
    pub fn expression(expression: Expression<'a>) -> (s: Self)
        ensures
            s == (Statement::Expression { expression }),
    {
        Self::Expression { expression }
    }
}

/// The identities of the expression nodes of a statement, in order.
pub open spec fn statement_ids(s: Statement) -> Seq<usize>
    decreases s,
{
    match s {
        Statement::FunctionDeclaration { declaration } => statements_ids(declaration.body@),
        Statement::VariableDeclaration { initializer, .. } => match initializer {
            Some(e) => expression_ids(e),
            None => Seq::empty(),
        },
        Statement::Block { statements } => statements_ids(statements@),
        Statement::While { condition, body } => expression_ids(condition) + statement_ids(*body),
        Statement::If { condition, then_branch, else_branch } => expression_ids(condition)
            + statement_ids(*then_branch) + match else_branch {
            Some(b) => statement_ids(*b),
            None => Seq::empty(),
        },
        Statement::Print { expression } => expression_ids(expression),
        Statement::Return { value, .. } => match value {
            Some(e) => expression_ids(e),
            None => Seq::empty(),
        },
        Statement::Expression { expression } => expression_ids(expression),
    }
}

/// The identities of the expression nodes of statements, in order.
pub open spec fn statements_ids(ss: Seq<Statement>) -> Seq<usize>
    decreases ss,
{
    if ss.len() == 0 {
        Seq::empty()
    } else {
        statements_ids(ss.drop_last()) + statement_ids(ss.last())
    }
}

/// The identities of statements and one more are theirs, then its.
pub proof fn lemma_statements_ids_push(ss: Seq<Statement>, s: Statement)
    ensures
        statements_ids(ss.push(s)) == statements_ids(ss) + statement_ids(s),
{
    assert(ss.push(s).drop_last() =~= ss);
}

/// The identities of two statements are the first's, then the second's.
pub proof fn lemma_statements_ids_pair(a: Statement, b: Statement)
    ensures
        statements_ids(seq![a, b]) == statement_ids(a) + statement_ids(b),
{
    lemma_statements_ids_push(Seq::empty(), a);
    lemma_statements_ids_push(seq![a], b);
    assert(Seq::<Statement>::empty().push(a) =~= seq![a]);
    assert(seq![a].push(b) =~= seq![a, b]);
    assert(Seq::<usize>::empty() + statement_ids(a) =~= statement_ids(a));
}

/// The identities of an if statement: its condition's, then its branches'.
pub proof fn lemma_if_ids(condition: Expression, then_branch: Statement, else_branch: Option<Statement>)
    ensures
        statement_ids(
            Statement::If {
                condition,
                then_branch: Box::new(then_branch),
                else_branch: match else_branch {
                    Some(b) => Some(Box::new(b)),
                    None => None,
                },
            },
        ) == expression_ids(condition) + statement_ids(then_branch) + match else_branch {
            Some(b) => statement_ids(b),
            None => Seq::empty(),
        },
{
}

/// A statement as the grammar speaks of it, with names as UTF-8 bytes and
/// their spans.
pub enum StatementShape {
    Function {
        name: (Seq<u8>, Range),
        parameters: Seq<(Seq<u8>, Range)>,
        body: Seq<StatementShape>,
    },
    Variable { name: (Seq<u8>, Range), initializer: Option<ExpressionShape> },
    Block { statements: Seq<StatementShape> },
    While { condition: ExpressionShape, body: Box<StatementShape> },
    If {
        condition: ExpressionShape,
        then_branch: Box<StatementShape>,
        else_branch: Option<Box<StatementShape>>,
    },
    Print { expression: ExpressionShape },
    Return { keyword_range: Range, value: Option<ExpressionShape> },
    Expression { expression: ExpressionShape },
}

/// A name's text and span.
pub open spec fn name_shape(i: Identifier) -> (Seq<u8>, Range) {
    (i.text.spec_bytes(), i.range)
}

/// The names' texts and spans, in order.
pub open spec fn name_shapes(names: Seq<Identifier>) -> Seq<(Seq<u8>, Range)> {
    names.map_values(|i: Identifier| name_shape(i))
}

/// The shape of an optional expression.
pub open spec fn maybe_shape(e: Option<Expression>) -> Option<ExpressionShape> {
    match e {
        Some(e) => Some(shape(e)),
        None => None,
    }
}

/// The shape of a statement.
pub open spec fn statement_shape(s: Statement) -> StatementShape
    decreases s,
{
    match s {
        Statement::FunctionDeclaration { declaration } => StatementShape::Function {
            name: name_shape(declaration.name),
            parameters: name_shapes(declaration.parameters@),
            body: statement_shapes(declaration.body@),
        },
        Statement::VariableDeclaration { name, initializer } => StatementShape::Variable {
            name: name_shape(name),
            initializer: maybe_shape(initializer),
        },
        Statement::Block { statements } => StatementShape::Block {
            statements: statement_shapes(statements@),
        },
        Statement::While { condition, body } => StatementShape::While {
            condition: shape(condition),
            body: Box::new(statement_shape(*body)),
        },
        Statement::If { condition, then_branch, else_branch } => StatementShape::If {
            condition: shape(condition),
            then_branch: Box::new(statement_shape(*then_branch)),
            else_branch: match else_branch {
                Some(b) => Some(Box::new(statement_shape(*b))),
                None => None,
            },
        },
        Statement::Print { expression } => StatementShape::Print { expression: shape(expression) },
        Statement::Return { keyword_range, value } => StatementShape::Return {
            keyword_range,
            value: maybe_shape(value),
        },
        Statement::Expression { expression } => StatementShape::Expression {
            expression: shape(expression),
        },
    }
}

/// The shapes of statements, in order.
pub open spec fn statement_shapes(ss: Seq<Statement>) -> Seq<StatementShape>
    decreases ss,
{
    if ss.len() == 0 {
        Seq::empty()
    } else {
        statement_shapes(ss.drop_last()).push(statement_shape(ss.last()))
    }
}

/// The shape of an optional statement.
pub open spec fn maybe_statement_shape(s: Option<Statement>) -> Option<StatementShape> {
    match s {
        Some(s) => Some(statement_shape(s)),
        None => None,
    }
}

/// The shapes of `ss` with `s` pushed are the shapes of `ss` with the shape
/// of `s` pushed.
pub proof fn lemma_statement_shapes_push(ss: Seq<Statement>, s: Statement)
    ensures
        statement_shapes(ss.push(s)) == statement_shapes(ss).push(statement_shape(s)),
{
    assert(ss.push(s).drop_last() =~= ss);
}

/// The shapes of names with `i` pushed are their shapes with the shape of
/// `i` pushed.
pub proof fn lemma_name_shapes_push(names: Seq<Identifier>, i: Identifier)
    ensures
        name_shapes(names.push(i)) == name_shapes(names).push(name_shape(i)),
{
    assert(name_shapes(names.push(i)) =~= name_shapes(names).push(name_shape(i)));
}

/// The shapes of two statements.
pub proof fn lemma_statement_shapes_pair(a: Statement, b: Statement)
    ensures
        statement_shapes(seq![a, b]) == seq![statement_shape(a), statement_shape(b)],
{
    assert(seq![a, b].drop_last() =~= seq![a]);
    assert(seq![a].drop_last() =~= Seq::<Statement>::empty());
    assert(statement_shapes(Seq::<Statement>::empty()) =~= Seq::<StatementShape>::empty());
    assert(statement_shapes(seq![a]) =~= seq![statement_shape(a)]);
    assert(statement_shapes(seq![a, b]) =~= seq![statement_shape(a), statement_shape(b)]);
}

} // verus!

//! The resolver: a walk over the syntax tree that finds, for each variable
//! read or assigned, how many scopes out its declaration stands, and that
//! reports the program's static errors.

use crate::ast::expression::{Expression, ExpressionId, ExpressionKind};
use crate::ast::statement::{Identifier, Statement};
use crate::range::Range;
use crate::text::same_text;
use std::collections::HashMap;
use vstd::prelude::*;
use vstd::string::StringSliceAdditionalSpecFns;

verus! {

broadcast use vstd::std_specs::hash::group_hash_axioms;

/// A static error.
#[derive(Debug, Clone, Copy, PartialEq, Eq, Structural)]
pub enum ResolveError {
    ReturnOutsideFunction { range: Range },
    ReadInOwnInitializer { range: Range },
    VariableAlreadyDeclared { range: Range },
}

/// For each resolved expression, by its identity, how many scopes out from
/// the innermost one its variable is declared.
#[derive(Debug)]
pub struct Resolutions {
    map: HashMap<usize, usize>,
}

impl View for Resolutions {
    type V = Map<usize, usize>;

    closed spec fn view(&self) -> Map<usize, usize> {
        self.map@
    }
}

impl Resolutions {
    /// No resolutions.
    pub fn new() -> (r: Self)
        ensures
            r@ == Map::<usize, usize>::empty(),
    {
        Resolutions { map: HashMap::new() }
    }

    /// The distance recorded for the expression `id`, if any.
    pub fn get(&self, id: ExpressionId) -> (r: Option<usize>)
        ensures
            r == (if self@.contains_key(id.value()) {
                Some(self@[id.value()])
            } else {
                None
            }),
    {
        match self.map.get(&id.index()) {
            Some(distance) => Some(*distance),
            None => None,
        }
    }

    /// How many expressions are resolved.
    pub fn len(&self) -> (r: usize)
        ensures
            r == self@.len(),
    {
        self.map.len()
    }

    /// Records `distance` for the expression `id`.
    fn insert(&mut self, id: ExpressionId, distance: usize)
        ensures
            final(self)@ == old(self)@.insert(id.value(), distance),
    {
        self.map.insert(id.index(), distance);
    }
}

/// What the resolver knows at a point of its walk.
pub struct ResolverState {
    /// The open scopes, innermost last. Each maps a name, by its UTF-8
    /// bytes, to whether its declaration is complete.
    pub scopes: Seq<Map<Seq<u8>, bool>>,
    /// How many function bodies the walk is in.
    pub depth: int,
    /// The resolutions so far, or, once an error is met, the errors so far.
    pub result: Result<Map<usize, usize>, Seq<ResolveError>>,
}

/// `result` with `error` reported: the first error drops the resolutions.
pub open spec fn reported(
    result: Result<Map<usize, usize>, Seq<ResolveError>>,
    error: ResolveError,
) -> Result<Map<usize, usize>, Seq<ResolveError>> {
    match result {
        Ok(_) => Err(seq![error]),
        Err(errors) => Err(errors.push(error)),
    }
}

/// `state` with `error` reported.
pub open spec fn with_error(state: ResolverState, error: ResolveError) -> ResolverState {
    ResolverState { scopes: state.scopes, depth: state.depth, result: reported(state.result, error) }
}

/// How many scopes out from the innermost one the innermost declaration of
/// `name` stands, if any declares it.
pub open spec fn innermost(scopes: Seq<Map<Seq<u8>, bool>>, name: Seq<u8>) -> Option<nat>
    decreases scopes.len(),
{
    if scopes.len() == 0 {
        None
    } else if scopes.last().contains_key(name) {
        Some(0)
    } else {
        match innermost(scopes.drop_last(), name) {
            Some(d) => Some(d + 1),
            None => None,
        }
    }
}

/// `state` with the expression `id`, which names `name`, resolved: while no
/// error is met, and where some scope declares the name.
pub open spec fn recorded(state: ResolverState, id: usize, name: Seq<u8>) -> ResolverState {
    match state.result {
        Ok(resolutions) => match innermost(state.scopes, name) {
            Some(d) => ResolverState {
                scopes: state.scopes,
                depth: state.depth,
                result: Ok(resolutions.insert(id, d as usize)),
            },
            None => state,
        },
        Err(_) => state,
    }
}

/// `state` with `name` declared, not yet complete, in the innermost scope;
/// an error where that scope declares it already. Outside every scope, a
/// declaration is global and nothing is kept.
pub open spec fn declared(state: ResolverState, name: Seq<u8>, range: Range) -> ResolverState {
    if state.scopes.len() == 0 {
        state
    } else if state.scopes.last().contains_key(name) {
        with_error(state, ResolveError::VariableAlreadyDeclared { range })
    } else {
        ResolverState {
            scopes: state.scopes.update(
                state.scopes.len() - 1,
                state.scopes.last().insert(name, false),
            ),
            depth: state.depth,
            result: state.result,
        }
    }
}

/// `state` with the declaration of `name` in the innermost scope complete.
pub open spec fn defined(state: ResolverState, name: Seq<u8>) -> ResolverState {
    if state.scopes.len() == 0 {
        state
    } else {
        ResolverState {
            scopes: state.scopes.update(
                state.scopes.len() - 1,
                state.scopes.last().insert(name, true),
            ),
            depth: state.depth,
            result: state.result,
        }
    }
}

/// `state` with a new innermost scope.
pub open spec fn opened(state: ResolverState) -> ResolverState {
    ResolverState { scopes: state.scopes.push(Map::empty()), depth: state.depth, result: state.result }
}

/// `state` with the innermost scope, if any, closed.
pub open spec fn closed(state: ResolverState) -> ResolverState {
    ResolverState {
        scopes: if state.scopes.len() == 0 {
            state.scopes
        } else {
            state.scopes.drop_last()
        },
        depth: state.depth,
        result: state.result,
    }
}

/// Whether reading `name` reads a variable in its own initializer: the
/// innermost scope declares it and its declaration is not complete.
pub open spec fn reads_own_initializer(scopes: Seq<Map<Seq<u8>, bool>>, name: Seq<u8>) -> bool {
    &&& scopes.len() > 0
    &&& scopes.last().contains_key(name)
    &&& !scopes.last()[name]
}

/// The resolver's walk over an expression, operands left to right.
pub open spec fn expression_resolved(state: ResolverState, e: Expression) -> ResolverState
    decreases e,
{
    match e.kind {
        ExpressionKind::Logical { lhs, rhs, .. } => expression_resolved(
            expression_resolved(state, *lhs),
            *rhs,
        ),
        ExpressionKind::Assignment { name, value } => recorded(
            expression_resolved(state, *value),
            e.id.value(),
            name.spec_bytes(),
        ),
        ExpressionKind::Binary { lhs, rhs, .. } => expression_resolved(
            expression_resolved(state, *lhs),
            *rhs,
        ),
        ExpressionKind::Unary { rhs, .. } => expression_resolved(state, *rhs),
        ExpressionKind::Call { callee, arguments } => expressions_resolved(
            expression_resolved(state, *callee),
            arguments@,
        ),
        ExpressionKind::Grouping { expression } => expression_resolved(state, *expression),
        ExpressionKind::Variable { name } => recorded(
            if reads_own_initializer(state.scopes, name.spec_bytes()) {
                with_error(state, ResolveError::ReadInOwnInitializer { range: e.range })
            } else {
                state
            },
            e.id.value(),
            name.spec_bytes(),
        ),
        ExpressionKind::Literal(_) => state,
    }
}

/// The resolver's walk over expressions in order.
pub open spec fn expressions_resolved(state: ResolverState, es: Seq<Expression>) -> ResolverState
    decreases es,
{
    if es.len() == 0 {
        state
    } else {
        expression_resolved(expressions_resolved(state, es.drop_last()), es.last())
    }
}

/// The resolver's walk over parameters: each declared and defined in turn.
pub open spec fn parameters_bound(state: ResolverState, parameters: Seq<Identifier>) -> ResolverState
    decreases parameters.len(),
{
    if parameters.len() == 0 {
        state
    } else {
        let last = parameters.last();
        defined(
            declared(
                parameters_bound(state, parameters.drop_last()),
                last.text.spec_bytes(),
                last.range,
            ),
            last.text.spec_bytes(),
        )
    }
}

/// The resolver's walk over a statement.
///
/// A function's name is declared in the scope that encloses it, its
/// parameters in a new scope, and its body is resolved in that scope; a
/// variable's initializer is resolved between its declaration and its
/// definition; a block opens a scope of its own; a `return` outside every
/// function body is an error.
pub open spec fn statement_resolved(state: ResolverState, s: Statement) -> ResolverState
    decreases s,
{
    match s {
        Statement::FunctionDeclaration { declaration } => {
            let name = declaration.name.text.spec_bytes();
            let entered = ResolverState {
                scopes: state.scopes,
                depth: state.depth + 1,
                result: state.result,
            };
            let named = defined(declared(entered, name, declaration.name.range), name);
            let bound = parameters_bound(opened(named), declaration.parameters@);
            let done = closed(statements_resolved(bound, declaration.body@));
            ResolverState { scopes: done.scopes, depth: done.depth - 1, result: done.result }
        },
        Statement::VariableDeclaration { name, initializer } => {
            let declared_state = declared(state, name.text.spec_bytes(), name.range);
            let initialized = match initializer {
                Some(e) => expression_resolved(declared_state, e),
                None => declared_state,
            };
            defined(initialized, name.text.spec_bytes())
        },
        Statement::Block { statements } => closed(statements_resolved(opened(state), statements@)),
        Statement::While { condition, body } => statement_resolved(
            expression_resolved(state, condition),
            *body,
        ),
        Statement::If { condition, then_branch, else_branch } => {
            let then_state = statement_resolved(expression_resolved(state, condition), *then_branch);
            match else_branch {
                Some(b) => statement_resolved(then_state, *b),
                None => then_state,
            }
        },
        Statement::Print { expression } => expression_resolved(state, expression),
        Statement::Return { keyword_range, value } => {
            let checked = if state.depth == 0 {
                with_error(state, ResolveError::ReturnOutsideFunction { range: keyword_range })
            } else {
                state
            };
            match value {
                Some(e) => expression_resolved(checked, e),
                None => checked,
            }
        },
        Statement::Expression { expression } => expression_resolved(state, expression),
    }
}

/// The resolver's walk over statements in order.
pub open spec fn statements_resolved(state: ResolverState, ss: Seq<Statement>) -> ResolverState
    decreases ss,
{
    if ss.len() == 0 {
        state
    } else {
        statement_resolved(statements_resolved(state, ss.drop_last()), ss.last())
    }
}

/// How deeply function declarations nest in a statement.
pub open spec fn statement_nesting(s: Statement) -> nat
    decreases s,
{
    match s {
        Statement::FunctionDeclaration { declaration } => 1 + statements_nesting(
            declaration.body@,
        ),
        Statement::Block { statements } => statements_nesting(statements@),
        Statement::While { body, .. } => statement_nesting(*body),
        Statement::If { then_branch, else_branch, .. } => {
            let t = statement_nesting(*then_branch);
            let e = match else_branch {
                Some(b) => statement_nesting(*b),
                None => 0,
            };
            if t >= e {
                t
            } else {
                e
            }
        },
        _ => 0,
    }
}

/// The larger of two numbers.
pub open spec fn max_nat(a: nat, b: nat) -> nat {
    if a >= b {
        a
    } else {
        b
    }
}

/// How deeply function declarations nest in statements.
pub open spec fn statements_nesting(ss: Seq<Statement>) -> nat
    decreases ss,
{
    if ss.len() == 0 {
        0
    } else {
        let a = statements_nesting(ss.drop_last());
        let b = statement_nesting(ss.last());
        if a >= b {
            a
        } else {
            b
        }
    }
}

/// Two statements nest as deeply as the deeper of them.
pub proof fn lemma_statements_nesting_pair(a: Statement, b: Statement)
    ensures
        statements_nesting(seq![a, b]) == max_nat(statement_nesting(a), statement_nesting(b)),
{
    assert(seq![a, b].drop_last() =~= seq![a]);
    assert(seq![a].drop_last() =~= Seq::<Statement>::empty());
    assert(statements_nesting(Seq::<Statement>::empty()) == 0);
    assert(statements_nesting(seq![a]) == statement_nesting(a));
}

/// Every statement nests no deeper than the statements it stands among.
pub proof fn lemma_statements_nesting(ss: Seq<Statement>, i: int)
    requires
        0 <= i < ss.len(),
    ensures
        statement_nesting(ss[i]) <= statements_nesting(ss),
    decreases ss.len(),
{
    if i < ss.len() - 1 {
        lemma_statements_nesting(ss.drop_last(), i);
        assert(ss.drop_last()[i] == ss[i]);
    }
}

/// The map that a scope's entries make, a later entry for a name standing
/// over an earlier one.
spec fn scope_map(entries: Seq<(&str, bool)>) -> Map<Seq<u8>, bool>
    decreases entries.len(),
{
    if entries.len() == 0 {
        Map::empty()
    } else {
        scope_map(entries.drop_last()).insert(entries.last().0.spec_bytes(), entries.last().1)
    }
}

/// The last entry's flag for `name`, if any entry names it.
spec fn entry_lookup(entries: Seq<(&str, bool)>, name: Seq<u8>) -> Option<bool>
    decreases entries.len(),
{
    if entries.len() == 0 {
        None
    } else if entries.last().0.spec_bytes() == name {
        Some(entries.last().1)
    } else {
        entry_lookup(entries.drop_last(), name)
    }
}

proof fn lemma_entry_lookup(entries: Seq<(&str, bool)>, name: Seq<u8>)
    ensures
        scope_map(entries).contains_key(name) == entry_lookup(entries, name) is Some,
        entry_lookup(entries, name) matches Some(b) ==> scope_map(entries)[name] == b,
    decreases entries.len(),
{
    if entries.len() > 0 {
        lemma_entry_lookup(entries.drop_last(), name);
    }
}

/// `o` moved `k` scopes further out.
spec fn outward(o: Option<nat>, k: nat) -> Option<nat> {
    match o {
        Some(d) => Some(d + k),
        None => None,
    }
}

/// The flag of the last entry for `name`.
fn scope_lookup(entries: &Vec<(&str, bool)>, name: &str) -> (r: Option<bool>)
    ensures
        r == entry_lookup(entries@, name.spec_bytes()),
{
    let mut i = entries.len();
    assert(entries@.take(i as int) =~= entries@);
    while i > 0
        invariant
            i <= entries@.len(),
            entry_lookup(entries@, name.spec_bytes()) == entry_lookup(
                entries@.take(i as int),
                name.spec_bytes(),
            ),
        decreases i,
    {
        let (text, flag) = entries[i - 1];
        assert(entries@.take(i as int).drop_last() =~= entries@.take(i - 1));
        if same_text(text, name) {
            return Some(flag);
        }
        i = i - 1;
    }
    None
}

/// The resolver. Each scope is a list of entries searched from the newest,
/// rather than a hash map keyed by `&str`, whose lookups by such keys come
/// with no specification to prove against.
#[derive(Debug)]
pub struct Resolver<'a> {
    scopes: Vec<Vec<(&'a str, bool)>>,
    function_declaration_depth: usize,
    resolutions: Resolutions,
    errors: Vec<ResolveError>,
}

impl<'a> Resolver<'a> {
    /// Where the walk stands.
    pub closed spec fn state(&self) -> ResolverState {
        ResolverState {
            scopes: Seq::new(self.scopes@.len(), |i: int| scope_map(self.scopes@[i]@)),
            depth: self.function_declaration_depth as int,
            result: if self.errors@.len() == 0 {
                Ok(self.resolutions@)
            } else {
                Err(self.errors@)
            },
        }
    }

    /// A resolver at the top level, with no scope open, no error met and
    /// nothing resolved.
    pub fn new() -> (r: Self)
        ensures
            r.state() == (ResolverState {
                scopes: Seq::empty(),
                depth: 0,
                result: Ok(Map::empty()),
            }),
    {
        let r = Resolver {
            scopes: Vec::new(),
            function_declaration_depth: 0,
            resolutions: Resolutions::new(),
            errors: Vec::new(),
        };
        assert(r.state().scopes =~= Seq::<Map<Seq<u8>, bool>>::empty());
        r
    }

    /// Reports `error`.
    fn report(&mut self, error: ResolveError)
        ensures
            final(self).state() == with_error(old(self).state(), error),
    {
        self.errors.push(error);
        assert(final(self).state().scopes =~= old(self).state().scopes);
        assert(self.errors@.len() > 0);
        proof {
            if old(self).errors@.len() == 0 {
                assert(self.errors@ =~= seq![error]);
            }
        }
    }

    /// How many scopes out from the innermost one the innermost declaration
    /// of `name` stands.
    fn distance_to(&self, name: &str) -> (r: Option<usize>)
        ensures
            innermost(self.state().scopes, name.spec_bytes()) == match r {
                Some(d) => Some(d as nat),
                None => None::<nat>,
            },
    {
        let ghost scopes = self.state().scopes;
        let ghost key = name.spec_bytes();
        let n = self.scopes.len();
        let mut k: usize = 0;
        assert(scopes.take(n as int) =~= scopes);
        while k < n
            invariant
                n == self.scopes@.len(),
                scopes == self.state().scopes,
                key == name.spec_bytes(),
                k <= n,
                innermost(scopes, key) == outward(innermost(scopes.take(n - k), key), k as nat),
            decreases n - k,
        {
            let found = scope_lookup(&self.scopes[n - 1 - k], name);
            proof {
                lemma_entry_lookup(self.scopes@[n - 1 - k]@, key);
                assert(scopes.take(n - k).drop_last() =~= scopes.take(n - k - 1));
            }
            if found.is_some() {
                return Some(k);
            }
            k = k + 1;
        }
        None
    }

    /// Sets the flag of `name` in the innermost scope, which is open.
    fn set_in_innermost(&mut self, name: &'a str, flag: bool)
        requires
            old(self).scopes@.len() > 0,
        ensures
            final(self).state() == (ResolverState {
                scopes: old(self).state().scopes.update(
                    old(self).state().scopes.len() - 1,
                    old(self).state().scopes.last().insert(name.spec_bytes(), flag),
                ),
                depth: old(self).state().depth,
                result: old(self).state().result,
            }),
    {
        let mut scope = self.scopes.pop().unwrap();
        let ghost before = scope@;
        scope.push((name, flag));
        assert(scope@.drop_last() =~= before);
        self.scopes.push(scope);
        assert(self.state().scopes =~= old(self).state().scopes.update(
            old(self).state().scopes.len() - 1,
            old(self).state().scopes.last().insert(name.spec_bytes(), flag),
        ));
    }

    /// Declares `name` in the innermost scope.
    fn declare(&mut self, name: &'a str, range: Range)
        ensures
            final(self).state() == declared(old(self).state(), name.spec_bytes(), range),
    {
        let n = self.scopes.len();
        if n == 0 {
            return;
        }
        let found = scope_lookup(&self.scopes[n - 1], name);
        proof {
            lemma_entry_lookup(self.scopes@[n - 1]@, name.spec_bytes());
        }
        if found.is_some() {
            self.report(ResolveError::VariableAlreadyDeclared { range });
            return;
        }
        self.set_in_innermost(name, false);
    }

    /// Completes the declaration of `name` in the innermost scope.
    fn define(&mut self, name: &'a str)
        ensures
            final(self).state() == defined(old(self).state(), name.spec_bytes()),
    {
        if self.scopes.len() == 0 {
            return;
        }
        self.set_in_innermost(name, true);
    }

    /// Records where the variable `name` of the expression `id` is declared.
    fn record(&mut self, id: ExpressionId, name: &str)
        ensures
            final(self).state() == recorded(old(self).state(), id.value(), name.spec_bytes()),
    {
        if self.errors.len() == 0 {
            match self.distance_to(name) {
                Some(distance) => {
                    self.resolutions.insert(id, distance);
                    assert(self.state().scopes =~= old(self).state().scopes);
                },
                None => {},
            }
        }
    }
}

impl<'a> Resolver<'a> {
    /// Resolves every statement in order, and hands back the resolutions,
    /// or, where any static error is met, every error, in order.
    pub fn resolve(self, statements: &[Statement<'a>]) -> (r: Result<Resolutions, Vec<ResolveError>>)
        requires
            self.state().depth + statements_nesting(statements@) <= usize::MAX,
        ensures
            match r {
                Ok(resolutions) => statements_resolved(self.state(), statements@).result == Ok::<
                    Map<usize, usize>,
                    Seq<ResolveError>,
                >(resolutions@),
                Err(errors) => statements_resolved(self.state(), statements@).result == Err::<
                    Map<usize, usize>,
                    Seq<ResolveError>,
                >(errors@),
            },
    {
        let mut resolver = self;
        resolver.resolve_statements(statements);
        if resolver.errors.len() == 0 {
            Ok(resolver.resolutions)
        } else {
            Err(resolver.errors)
        }
    }

    /// Resolves `statements` in order.
    fn resolve_statements(&mut self, statements: &[Statement<'a>])
        requires
            old(self).state().depth + statements_nesting(statements@) <= usize::MAX,
        ensures
            final(self).state() == statements_resolved(old(self).state(), statements@),
            final(self).state().depth == old(self).state().depth,
        decreases statements@,
    {
        let ghost start = self.state();
        let mut i: usize = 0;
        while i < statements.len()
            invariant
                i <= statements@.len(),
                start.depth + statements_nesting(statements@) <= usize::MAX,
                self.state() == statements_resolved(start, statements@.take(i as int)),
                self.state().depth == start.depth,
            decreases statements@.len() - i,
        {
            proof {
                lemma_statements_nesting(statements@, i as int);
                assert(statements@.take(i + 1).drop_last() =~= statements@.take(i as int));
            }
            self.resolve_statement(&statements[i]);
            i = i + 1;
        }
        assert(statements@.take(i as int) =~= statements@);
    }

    /// Resolves `statement`.
    fn resolve_statement(&mut self, statement: &Statement<'a>)
        requires
            old(self).state().depth + statement_nesting(*statement) <= usize::MAX,
        ensures
            final(self).state() == statement_resolved(old(self).state(), *statement),
            final(self).state().depth == old(self).state().depth,
        decreases statement,
    {
        match statement {
            Statement::FunctionDeclaration { declaration } => {
                self.function_declaration_depth = self.function_declaration_depth + 1;
                let name = declaration.name.text;
                let range = declaration.name.range;
                self.declare(name, range);
                self.define(name);
                let ghost named = self.state();
                self.scopes.push(Vec::new());
                assert(self.state().scopes =~= opened(named).scopes);
                let parameters = &declaration.parameters;
                let ghost bound_start = self.state();
                let mut i: usize = 0;
                while i < parameters.len()
                    invariant
                        i <= parameters@.len(),
                        self.state() == parameters_bound(bound_start, parameters@.take(i as int)),
                        self.state().depth == bound_start.depth,
                    decreases parameters@.len() - i,
                {
                    let parameter = parameters[i];
                    assert(parameters@.take(i + 1).drop_last() =~= parameters@.take(i as int));
                    self.declare(parameter.text, parameter.range);
                    self.define(parameter.text);
                    i = i + 1;
                }
                assert(parameters@.take(i as int) =~= parameters@);
                self.resolve_statements(declaration.body.as_slice());
                let ghost done = self.state();
                self.scopes.pop();
                assert(self.state().scopes =~= closed(done).scopes);
                self.function_declaration_depth = self.function_declaration_depth - 1;
            },
            Statement::VariableDeclaration { name, initializer } => {
                self.declare(name.text, name.range);
                match initializer {
                    Some(e) => {
                        self.resolve_expression(e);
                    },
                    None => {},
                }
                self.define(name.text);
            },
            Statement::Block { statements } => {
                self.scopes.push(Vec::new());
                assert(self.state().scopes =~= opened(old(self).state()).scopes);
                self.resolve_statements(statements.as_slice());
                let ghost done = self.state();
                self.scopes.pop();
                assert(self.state().scopes =~= closed(done).scopes);
            },
            Statement::While { condition, body } => {
                self.resolve_expression(condition);
                self.resolve_statement(body);
            },
            Statement::If { condition, then_branch, else_branch } => {
                self.resolve_expression(condition);
                self.resolve_statement(then_branch);
                match else_branch {
                    Some(b) => {
                        self.resolve_statement(b);
                    },
                    None => {},
                }
            },
            Statement::Print { expression } => {
                self.resolve_expression(expression);
            },
            Statement::Return { keyword_range, value } => {
                if self.function_declaration_depth == 0 {
                    let range = *keyword_range;
                    self.report(ResolveError::ReturnOutsideFunction { range });
                }
                match value {
                    Some(e) => {
                        self.resolve_expression(e);
                    },
                    None => {},
                }
            },
            Statement::Expression { expression } => {
                self.resolve_expression(expression);
            },
        }
    }

    /// Resolves `expression`.
    fn resolve_expression(&mut self, expression: &Expression<'a>)
        ensures
            final(self).state() == expression_resolved(old(self).state(), *expression),
            final(self).state().depth == old(self).state().depth,
        decreases expression,
    {
        match &expression.kind {
            ExpressionKind::Logical { lhs, rhs, .. } => {
                self.resolve_expression(lhs);
                self.resolve_expression(rhs);
            },
            ExpressionKind::Assignment { name, value } => {
                self.resolve_expression(value);
                self.record(expression.id, name);
            },
            ExpressionKind::Binary { lhs, rhs, .. } => {
                self.resolve_expression(lhs);
                self.resolve_expression(rhs);
            },
            ExpressionKind::Unary { rhs, .. } => {
                self.resolve_expression(rhs);
            },
            ExpressionKind::Call { callee, arguments } => {
                self.resolve_expression(callee);
                self.resolve_expressions(arguments);
            },
            ExpressionKind::Grouping { expression } => {
                self.resolve_expression(expression);
            },
            ExpressionKind::Variable { name } => {
                let n = self.scopes.len();
                if n > 0 {
                    let found = scope_lookup(&self.scopes[n - 1], name);
                    proof {
                        lemma_entry_lookup(self.scopes@[n - 1]@, name.spec_bytes());
                    }
                    match found {
                        Some(false) => {
                            let range = expression.range;
                            self.report(ResolveError::ReadInOwnInitializer { range });
                        },
                        _ => {},
                    }
                }
                self.record(expression.id, name);
            },
            ExpressionKind::Literal(_) => {},
        }
    }

    /// Resolves `expressions` in order.
    fn resolve_expressions(&mut self, expressions: &Vec<Expression<'a>>)
        ensures
            final(self).state() == expressions_resolved(old(self).state(), expressions@),
            final(self).state().depth == old(self).state().depth,
        decreases expressions@,
    {
        let ghost start = self.state();
        let mut i: usize = 0;
        while i < expressions.len()
            invariant
                i <= expressions@.len(),
                self.state() == expressions_resolved(start, expressions@.take(i as int)),
                self.state().depth == start.depth,
            decreases expressions@.len() - i,
        {
            assert(expressions@.take(i + 1).drop_last() =~= expressions@.take(i as int));
            self.resolve_expression(&expressions[i]);
            i = i + 1;
        }
        assert(expressions@.take(i as int) =~= expressions@);
    }
}

impl<'a> Default for Resolver<'a> {
    fn default() -> (r: Self)
        ensures
            r.state() == (ResolverState {
                scopes: Seq::empty(),
                depth: 0,
                result: Ok(Map::empty()),
            }),
    {
        Self::new()
    }
}

/// Whether `later` keeps what `earlier` found: the same number of open
/// scopes and the same depth, and, once an error is met, every error met so
/// far, in order, followed by any new ones.
pub open spec fn keeps(earlier: ResolverState, later: ResolverState) -> bool {
    &&& later.scopes.len() == earlier.scopes.len()
    &&& later.depth == earlier.depth
    &&& errors_kept(earlier.result, later.result)
}

/// Whether `later` holds, once `earlier` holds errors, those errors in
/// order, followed by any new ones.
pub open spec fn errors_kept(
    earlier: Result<Map<usize, usize>, Seq<ResolveError>>,
    later: Result<Map<usize, usize>, Seq<ResolveError>>,
) -> bool {
    earlier matches Err(es) ==> later matches Err(ls) && es.len() <= ls.len() && ls.subrange(
        0,
        es.len() as int,
    ) == es
}

proof fn lemma_errors_kept_trans(
    a: Result<Map<usize, usize>, Seq<ResolveError>>,
    b: Result<Map<usize, usize>, Seq<ResolveError>>,
    c: Result<Map<usize, usize>, Seq<ResolveError>>,
)
    requires
        errors_kept(a, b),
        errors_kept(b, c),
    ensures
        errors_kept(a, c),
{
    if a is Err {
        let es = a->Err_0;
        let bs = b->Err_0;
        let cs = c->Err_0;
        assert(cs.subrange(0, es.len() as int) =~= bs.subrange(0, es.len() as int));
    }
}

proof fn lemma_keeps_trans(a: ResolverState, b: ResolverState, c: ResolverState)
    requires
        keeps(a, b),
        keeps(b, c),
    ensures
        keeps(a, c),
{
    lemma_errors_kept_trans(a.result, b.result, c.result);
    if a.result is Err {
        let es = a.result->Err_0;
        let bs = b.result->Err_0;
        let cs = c.result->Err_0;
        assert(cs.subrange(0, es.len() as int) =~= bs.subrange(0, es.len() as int));
    }
}

proof fn lemma_reported_keeps(state: ResolverState, error: ResolveError)
    ensures
        keeps(state, with_error(state, error)),
{
    if state.result is Err {
        let es = state.result->Err_0;
        assert(es.push(error).subrange(0, es.len() as int) =~= es);
    }
}

proof fn lemma_recorded_keeps(state: ResolverState, id: usize, name: Seq<u8>)
    ensures
        keeps(state, recorded(state, id, name)),
{
    if state.result is Err {
        assert(state.result->Err_0.subrange(0, state.result->Err_0.len() as int)
            =~= state.result->Err_0);
    }
}

proof fn lemma_keeps_refl(state: ResolverState)
    ensures
        keeps(state, state),
{
    if state.result is Err {
        assert(state.result->Err_0.subrange(0, state.result->Err_0.len() as int)
            =~= state.result->Err_0);
    }
}

proof fn lemma_declared_keeps(state: ResolverState, name: Seq<u8>, range: Range)
    ensures
        keeps(state, declared(state, name, range)),
        keeps(state, defined(state, name)),
{
    lemma_keeps_refl(state);
    lemma_reported_keeps(state, ResolveError::VariableAlreadyDeclared { range });
}

/// Resolving an expression keeps the scopes and the depth, and never takes
/// back an error.
pub proof fn lemma_expression_keeps(state: ResolverState, e: Expression)
    ensures
        keeps(state, expression_resolved(state, e)),
    decreases e,
{
    match e.kind {
        ExpressionKind::Logical { lhs, rhs, .. } => {
            lemma_expression_keeps(state, *lhs);
            lemma_expression_keeps(expression_resolved(state, *lhs), *rhs);
            lemma_keeps_trans(state, expression_resolved(state, *lhs), expression_resolved(
                expression_resolved(state, *lhs),
                *rhs,
            ));
        },
        ExpressionKind::Assignment { name, value } => {
            let inner = expression_resolved(state, *value);
            lemma_expression_keeps(state, *value);
            lemma_recorded_keeps(inner, e.id.value(), name.spec_bytes());
            lemma_keeps_trans(state, inner, recorded(inner, e.id.value(), name.spec_bytes()));
        },
        ExpressionKind::Binary { lhs, rhs, .. } => {
            lemma_expression_keeps(state, *lhs);
            lemma_expression_keeps(expression_resolved(state, *lhs), *rhs);
            lemma_keeps_trans(state, expression_resolved(state, *lhs), expression_resolved(
                expression_resolved(state, *lhs),
                *rhs,
            ));
        },
        ExpressionKind::Unary { rhs, .. } => {
            lemma_expression_keeps(state, *rhs);
        },
        ExpressionKind::Call { callee, arguments } => {
            let inner = expression_resolved(state, *callee);
            lemma_expression_keeps(state, *callee);
            lemma_expressions_keeps(inner, arguments@);
            lemma_keeps_trans(state, inner, expressions_resolved(inner, arguments@));
        },
        ExpressionKind::Grouping { expression } => {
            lemma_expression_keeps(state, *expression);
        },
        ExpressionKind::Variable { name } => {
            let checked = if reads_own_initializer(state.scopes, name.spec_bytes()) {
                with_error(state, ResolveError::ReadInOwnInitializer { range: e.range })
            } else {
                state
            };
            lemma_keeps_refl(state);
            lemma_reported_keeps(state, ResolveError::ReadInOwnInitializer { range: e.range });
            lemma_recorded_keeps(checked, e.id.value(), name.spec_bytes());
            lemma_keeps_trans(state, checked, recorded(checked, e.id.value(), name.spec_bytes()));
        },
        ExpressionKind::Literal(_) => {
            lemma_keeps_refl(state);
        },
    }
}

/// Resolving expressions keeps the scopes and the depth, and never takes
/// back an error.
pub proof fn lemma_expressions_keeps(state: ResolverState, es: Seq<Expression>)
    ensures
        keeps(state, expressions_resolved(state, es)),
    decreases es,
{
    if es.len() == 0 {
        lemma_keeps_refl(state);
    } else {
        let before = expressions_resolved(state, es.drop_last());
        lemma_expressions_keeps(state, es.drop_last());
        lemma_expression_keeps(before, es.last());
        lemma_keeps_trans(state, before, expression_resolved(before, es.last()));
    }
}

proof fn lemma_parameters_keep(state: ResolverState, parameters: Seq<Identifier>)
    ensures
        keeps(state, parameters_bound(state, parameters)),
    decreases parameters.len(),
{
    if parameters.len() == 0 {
        lemma_keeps_refl(state);
    } else {
        let last = parameters.last();
        let name = last.text.spec_bytes();
        let before = parameters_bound(state, parameters.drop_last());
        lemma_parameters_keep(state, parameters.drop_last());
        lemma_declared_keeps(before, name, last.range);
        let d = declared(before, name, last.range);
        lemma_declared_keeps(d, name, last.range);
        lemma_keeps_trans(state, before, d);
        lemma_keeps_trans(state, d, defined(d, name));
    }
}

/// Resolving a statement leaves as many scopes open as it found, at the
/// same depth of function bodies, and never takes back an error.
pub proof fn lemma_statement_keeps(state: ResolverState, s: Statement)
    ensures
        keeps(state, statement_resolved(state, s)),
    decreases s,
{
    match s {
        Statement::FunctionDeclaration { declaration } => {
            let name = declaration.name.text.spec_bytes();
            let entered = ResolverState {
                scopes: state.scopes,
                depth: state.depth + 1,
                result: state.result,
            };
            let d = declared(entered, name, declaration.name.range);
            let named = defined(d, name);
            lemma_declared_keeps(entered, name, declaration.name.range);
            lemma_declared_keeps(d, name, declaration.name.range);
            lemma_keeps_trans(entered, d, named);
            let bound = parameters_bound(opened(named), declaration.parameters@);
            lemma_parameters_keep(opened(named), declaration.parameters@);
            let done = statements_resolved(bound, declaration.body@);
            lemma_statements_keeps(bound, declaration.body@);
            lemma_errors_kept_trans(state.result, named.result, bound.result);
            lemma_errors_kept_trans(state.result, bound.result, done.result);
        },
        Statement::VariableDeclaration { name, initializer } => {
            let d = declared(state, name.text.spec_bytes(), name.range);
            lemma_declared_keeps(state, name.text.spec_bytes(), name.range);
            let initialized = match initializer {
                Some(e) => expression_resolved(d, e),
                None => d,
            };
            match initializer {
                Some(e) => {
                    lemma_expression_keeps(d, e);
                },
                None => {
                    lemma_keeps_refl(d);
                },
            }
            lemma_keeps_trans(state, d, initialized);
            lemma_declared_keeps(initialized, name.text.spec_bytes(), name.range);
            lemma_keeps_trans(state, initialized, defined(initialized, name.text.spec_bytes()));
        },
        Statement::Block { statements } => {
            lemma_statements_keeps(opened(state), statements@);
            lemma_keeps_refl(state);
        },
        Statement::While { condition, body } => {
            let c = expression_resolved(state, condition);
            lemma_expression_keeps(state, condition);
            lemma_statement_keeps(c, *body);
            lemma_keeps_trans(state, c, statement_resolved(c, *body));
        },
        Statement::If { condition, then_branch, else_branch } => {
            let c = expression_resolved(state, condition);
            lemma_expression_keeps(state, condition);
            let t = statement_resolved(c, *then_branch);
            lemma_statement_keeps(c, *then_branch);
            lemma_keeps_trans(state, c, t);
            match else_branch {
                Some(b) => {
                    lemma_statement_keeps(t, *b);
                    lemma_keeps_trans(state, t, statement_resolved(t, *b));
                },
                None => {},
            }
        },
        Statement::Print { expression } => {
            lemma_expression_keeps(state, expression);
        },
        Statement::Return { keyword_range, value } => {
            let checked = if state.depth == 0 {
                with_error(state, ResolveError::ReturnOutsideFunction { range: keyword_range })
            } else {
                state
            };
            lemma_keeps_refl(state);
            lemma_reported_keeps(state, ResolveError::ReturnOutsideFunction { range: keyword_range });
            match value {
                Some(e) => {
                    lemma_expression_keeps(checked, e);
                    lemma_keeps_trans(state, checked, expression_resolved(checked, e));
                },
                None => {},
            }
        },
        Statement::Expression { expression } => {
            lemma_expression_keeps(state, expression);
        },
    }
}

/// Resolving statements leaves as many scopes open as it found, at the same
/// depth of function bodies, and never takes back an error.
pub proof fn lemma_statements_keeps(state: ResolverState, ss: Seq<Statement>)
    ensures
        keeps(state, statements_resolved(state, ss)),
    decreases ss,
{
    if ss.len() == 0 {
        lemma_keeps_refl(state);
    } else {
        let before = statements_resolved(state, ss.drop_last());
        lemma_statements_keeps(state, ss.drop_last());
        lemma_statement_keeps(before, ss.last());
        lemma_keeps_trans(state, before, statement_resolved(before, ss.last()));
    }
}


/// An `if` with an `else` resolves as the same `if` without it followed by
/// its `else` branch: the `else` branch is walked, after the `then` branch,
/// so the variables in it are resolved and its errors reported.
pub proof fn lemma_else_follows_then<'a>(
    state: ResolverState,
    condition: Expression<'a>,
    then_branch: Statement<'a>,
    else_branch: Statement<'a>,
)
    ensures
        statement_resolved(
            state,
            Statement::If {
                condition,
                then_branch: Box::new(then_branch),
                else_branch: Some(Box::new(else_branch)),
            },
        ) == statement_resolved(
            statement_resolved(
                state,
                Statement::If { condition, then_branch: Box::new(then_branch), else_branch: None },
            ),
            else_branch,
        ),
{
}

/// A variable read in an `else` branch is resolved to the distance of the
/// innermost scope that declares it, as the scopes stand after the
/// condition and the `then` branch.
pub proof fn lemma_else_read_resolved<'a>(
    state: ResolverState,
    condition: Expression<'a>,
    then_branch: Statement<'a>,
    read: Expression<'a>,
    name: &'a str,
    distance: nat,
)
    requires
        read.kind == (ExpressionKind::Variable { name }),
        statement_resolved(
            state,
            Statement::If { condition, then_branch: Box::new(then_branch), else_branch: None },
        ).result is Ok,
        innermost(
            statement_resolved(
                state,
                Statement::If { condition, then_branch: Box::new(then_branch), else_branch: None },
            ).scopes,
            name.spec_bytes(),
        ) == Some(distance),
        !reads_own_initializer(
            statement_resolved(
                state,
                Statement::If { condition, then_branch: Box::new(then_branch), else_branch: None },
            ).scopes,
            name.spec_bytes(),
        ),
    ensures
        statement_resolved(
            state,
            Statement::If {
                condition,
                then_branch: Box::new(then_branch),
                else_branch: Some(Box::new(Statement::Print { expression: read })),
            },
        ).result == Ok::<Map<usize, usize>, Seq<ResolveError>>(
            statement_resolved(
                state,
                Statement::If { condition, then_branch: Box::new(then_branch), else_branch: None },
            ).result->Ok_0.insert(read.id.value(), distance as usize),
        ),
{
    let after_then = statement_resolved(
        state,
        Statement::If { condition, then_branch: Box::new(then_branch), else_branch: None },
    );
    let print = Statement::Print { expression: read };
    lemma_else_follows_then(state, condition, then_branch, print);
    assert(statement_resolved(after_then, print) == expression_resolved(after_then, read));
    assert(expression_resolved(after_then, read) == recorded(
        after_then,
        read.id.value(),
        name.spec_bytes(),
    ));
}


/// An `if` resolves as its parts one after another, outside any new scope:
/// its condition, as an expression statement, then its `then` branch, then
/// its `else` branch where it has one.
pub proof fn lemma_if_resolves_in_order<'a>(
    state: ResolverState,
    condition: Expression<'a>,
    then_branch: Statement<'a>,
    else_branch: Option<Statement<'a>>,
)
    ensures
        statement_resolved(
            state,
            Statement::If {
                condition,
                then_branch: Box::new(then_branch),
                else_branch: match else_branch {
                    Some(b) => Some(Box::new(b)),
                    None => None,
                },
            },
        ) == statements_resolved(
            state,
            seq![Statement::Expression { expression: condition }, then_branch] + match else_branch {
                Some(b) => seq![b],
                None => Seq::empty(),
            },
        ),
{
    let first = seq![Statement::Expression { expression: condition }];
    let two = seq![Statement::Expression { expression: condition }, then_branch];
    assert(first.drop_last() =~= Seq::<Statement<'a>>::empty());
    assert(two.drop_last() =~= first);
    assert(statements_resolved(state, Seq::<Statement<'a>>::empty()) == state);
    assert(statements_resolved(state, first) == statement_resolved(
        state,
        Statement::Expression { expression: condition },
    ));
    assert(statements_resolved(state, first) == expression_resolved(state, condition));
    assert(statements_resolved(state, two) == statement_resolved(
        expression_resolved(state, condition),
        then_branch,
    ));
    match else_branch {
        Some(b) => {
            let three = two + seq![b];
            assert(three.drop_last() =~= two);
            assert(three.last() == b);
        },
        None => {
            assert(two + Seq::<Statement<'a>>::empty() =~= two);
        },
    }
}

} // verus!

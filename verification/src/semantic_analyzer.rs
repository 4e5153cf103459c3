//! Semantic analysis: every variable is declared before it is used.
//!
//! The analysis walks the tree with a stack of scopes, each the set of names
//! declared in it. `let` declares into the innermost scope, a loop body is
//! analysed in a fresh innermost scope that is dropped afterwards, and every
//! use of a name that no scope on the stack holds is recorded, in the order
//! of the walk.

use crate::ast::{
    AbstractSyntaxTree, AssignmentStatement, Expr, LetStatement, LoopStatement, PrintStatement,
    Statement, StatementList, StatementView, Term, TermView,
};
use vstd::prelude::*;

verus! {

/// A violation found by the analysis.
#[derive(Debug, Clone, PartialEq, Eq)]
pub enum SemanticError {
    /// The named variable is used where no visible scope declares it.
    UndeclaredVariable(String),
}

/// Mathematical value of a [`SemanticError`].
pub enum SemanticErrorView {
    UndeclaredVariable(Seq<char>),
}

impl View for SemanticError {
    type V = SemanticErrorView;

    open spec fn view(&self) -> SemanticErrorView {
        match self {
            SemanticError::UndeclaredVariable(name) => SemanticErrorView::UndeclaredVariable(name@),
        }
    }
}

/// The errors of a sequence as mathematical values, in the same order.
pub open spec fn errors_view(errors: Seq<SemanticError>) -> Seq<SemanticErrorView> {
    Seq::new(errors.len(), |i: int| errors[i]@)
}

/// A stack of scopes, outermost first; each scope is the set of names declared in it.
pub type Scopes = Seq<Set<Seq<char>>>;

/// Whether some scope of the stack declares `name`.
pub open spec fn is_declared(scopes: Scopes, name: Seq<char>) -> bool {
    exists|i: int| 0 <= i < scopes.len() && #[trigger] scopes[i].contains(name)
}

/// The stack with `name` added to its innermost scope; unchanged if it has no scope.
pub open spec fn declare_in(scopes: Scopes, name: Seq<char>) -> Scopes {
    if scopes.len() > 0 {
        scopes.update(scopes.len() - 1, scopes.last().insert(name))
    } else {
        scopes
    }
}

/// The stack without its innermost scope; unchanged if it has no scope.
pub open spec fn exit_from(scopes: Scopes) -> Scopes {
    if scopes.len() > 0 {
        scopes.drop_last()
    } else {
        scopes
    }
}

/// The names that a scope, held as a list, declares.
pub open spec fn names_of(scope: Seq<String>) -> Set<Seq<char>> {
    Set::new(|name: Seq<char>| exists|i: int| 0 <= i < scope.len() && #[trigger] scope[i]@ == name)
}

/// The scopes that are open at a point of the walk, innermost last.
pub struct ScopeStack {
    scopes: Vec<Vec<String>>,
}

impl View for ScopeStack {
    type V = Scopes;

    closed spec fn view(&self) -> Scopes {
        Seq::new(self.scopes.len() as nat, |i: int| names_of(self.scopes[i]@))
    }
}

/// Whether `name` stands in the list.
fn scope_contains(scope: &Vec<String>, name: &String) -> (found: bool)
    ensures
        found == names_of(scope@).contains(name@),
{
    let mut i: usize = 0;
    while i < scope.len()
        invariant
            i <= scope.len(),
            forall|j: int| 0 <= j < i ==> scope[j]@ != name@,
        decreases scope.len() - i,
    {
        if scope[i] == *name {
            return true;
        }
        i += 1;
    }
    false
}

impl ScopeStack {
    /// A stack with one scope that declares nothing.
    pub fn new() -> (stack: ScopeStack)
        ensures
            stack@ == seq![Set::<Seq<char>>::empty()],
    {
        let mut scopes: Vec<Vec<String>> = Vec::new();
        scopes.push(Vec::new());
        let stack = ScopeStack { scopes };
        assert(stack@ =~= seq![Set::<Seq<char>>::empty()]) by {
            assert(names_of(stack.scopes[0]@) =~= Set::<Seq<char>>::empty());
        }
        stack
    }

    /// Opens a new innermost scope that declares nothing.
    pub fn enter_scope(&mut self)
        ensures
            final(self)@ == old(self)@.push(Set::empty()),
    {
        self.scopes.push(Vec::new());
        proof {
            let last = self.scopes.len() - 1;
            assert(names_of(self.scopes[last]@) =~= Set::<Seq<char>>::empty());
            assert(self@ =~= old(self)@.push(Set::empty()));
        }
    }

    /// Drops the innermost scope, if there is one.
    pub fn exit_scope(&mut self)
        ensures
            final(self)@ == exit_from(old(self)@),
    {
        self.scopes.pop();
        proof {
            assert(self@ =~= exit_from(old(self)@));
        }
    }

    /// Declares `name` in the innermost scope, if there is one. A name that
    /// the scope already holds is not stored a second time.
    pub fn declare(&mut self, name: String)
        ensures
            final(self)@ == declare_in(old(self)@, name@),
    {
        match self.scopes.pop() {
            Some(mut current_scope) => {
                let ghost before = current_scope@;
                if !scope_contains(&current_scope, &name) {
                    current_scope.push(name);
                }
                assert(names_of(current_scope@) =~= names_of(before).insert(name@)) by {
                    assert forall|n: Seq<char>|
                        names_of(before).insert(name@).contains(n) implies names_of(
                        current_scope@,
                    ).contains(n) by {
                        if n == name@ {
                            if names_of(before).contains(n) {
                                let i = choose|i: int|
                                    0 <= i < before.len() && #[trigger] before[i]@ == n;
                                assert(current_scope@[i]@ == n);
                            } else {
                                assert(current_scope@[before.len() as int]@ == n);
                            }
                        } else {
                            let i = choose|i: int|
                                0 <= i < before.len() && #[trigger] before[i]@ == n;
                            assert(current_scope@[i]@ == n);
                        }
                    }
                }
                self.scopes.push(current_scope);
                proof {
                    assert(self@ =~= declare_in(old(self)@, name@));
                }
            },
            None => {},
        }
    }

    /// Whether some scope on the stack declares `name`.
    pub fn declared(&self, name: &str) -> (found: bool)
        ensures
            found == is_declared(self@, name@),
    {
        let owned = name.to_owned();
        let mut i: usize = self.scopes.len();
        while i > 0
            invariant
                i <= self.scopes.len(),
                owned@ == name@,
                forall|j: int|
                    i <= j < self.scopes.len() ==> !(#[trigger] self@[j]).contains(name@),
            decreases i,
        {
            i -= 1;
            if scope_contains(&self.scopes[i], &owned) {
                assert(self@[i as int].contains(name@));
                return true;
            }
        }
        false
    }
}

/// What a walk has found: the scope stack after it and the errors, in order.
pub struct Analysis {
    pub scopes: Scopes,
    pub errors: Seq<SemanticErrorView>,
}

/// The error, if any, for a use of `name` under `scopes`.
pub open spec fn use_errors(scopes: Scopes, name: Seq<char>) -> Seq<SemanticErrorView> {
    if is_declared(scopes, name) {
        Seq::empty()
    } else {
        seq![SemanticErrorView::UndeclaredVariable(name)]
    }
}

/// The error, if any, of a term: a number gives none, an identifier is a use.
pub open spec fn term_errors(scopes: Scopes, term: TermView) -> Seq<SemanticErrorView> {
    match term {
        TermView::Identifier(name) => use_errors(scopes, name),
        TermView::Number(_) => Seq::empty(),
    }
}

/// The errors of an expression: those of its terms, first to last.
pub open spec fn expr_errors(scopes: Scopes, terms: Seq<TermView>) -> Seq<SemanticErrorView>
    decreases terms.len(),
{
    if terms.len() == 0 {
        Seq::empty()
    } else {
        term_errors(scopes, terms[0]) + expr_errors(scopes, terms.drop_first())
    }
}

/// The walk over one statement, started under `scopes`.
///
/// `let` declares its name before its value is analysed, so the value may
/// use the name. An assignment uses its target, then its value. A loop's
/// count is analysed outside the body's scope.
pub open spec fn analyze_statement(scopes: Scopes, statement: StatementView) -> Analysis
    decreases statement, 0nat,
{
    match statement {
        StatementView::Let { identifier, value } => {
            let declared = declare_in(scopes, identifier);
            Analysis { scopes: declared, errors: expr_errors(declared, value) }
        },
        StatementView::Assignment { identifier, value } => Analysis {
            scopes,
            errors: use_errors(scopes, identifier) + expr_errors(scopes, value),
        },
        StatementView::Loop { count, body } => {
            let inside = analyze_statements(scopes.push(Set::empty()), body);
            Analysis {
                scopes: exit_from(inside.scopes),
                errors: expr_errors(scopes, count) + inside.errors,
            }
        },
        StatementView::Print { value } => Analysis { scopes, errors: expr_errors(scopes, value) },
    }
}

/// The walk over a statement list, each statement under the scopes that the
/// one before it left.
pub open spec fn analyze_statements(scopes: Scopes, statements: Seq<StatementView>) -> Analysis
    decreases statements, 1nat,
{
    if statements.len() == 0 {
        Analysis { scopes, errors: Seq::empty() }
    } else {
        let first = analyze_statement(scopes, statements[0]);
        let rest = analyze_statements(first.scopes, statements.drop_first());
        Analysis { scopes: rest.scopes, errors: first.errors + rest.errors }
    }
}

/// The errors of a whole program: the walk starts with one empty scope.
pub open spec fn program_errors(program: Seq<StatementView>) -> Seq<SemanticErrorView> {
    analyze_statements(seq![Set::empty()], program).errors
}

/// The walk over the first `n + 1` statements is the walk over the first
/// `n`, continued with the next statement.
proof fn lemma_analyze_statements_step(scopes: Scopes, statements: Seq<StatementView>, n: int)
    requires
        0 <= n < statements.len(),
    ensures
        ({
            let before = analyze_statements(scopes, statements.take(n));
            let step = analyze_statement(before.scopes, statements[n]);
            analyze_statements(scopes, statements.take(n + 1)) == (Analysis {
                scopes: step.scopes,
                errors: before.errors + step.errors,
            })
        }),
    decreases n,
{
    let longer = statements.take(n + 1);
    let first = analyze_statement(scopes, statements[0]);
    assert(longer[0] == statements[0]);
    if n == 0 {
        assert(longer.drop_first() =~= Seq::<StatementView>::empty());
        assert(statements.take(0) =~= Seq::<StatementView>::empty());
        assert(analyze_statements(first.scopes, longer.drop_first()).errors
            =~= Seq::<SemanticErrorView>::empty());
        assert(first.errors + Seq::<SemanticErrorView>::empty() =~= first.errors);
        assert(Seq::<SemanticErrorView>::empty() + first.errors =~= first.errors);
    } else {
        let tail = statements.drop_first();
        let shorter = statements.take(n);
        assert(shorter[0] == statements[0]);
        assert(longer.drop_first() =~= tail.take(n));
        assert(shorter.drop_first() =~= tail.take(n - 1));
        assert(tail[n - 1] == statements[n]);
        lemma_analyze_statements_step(first.scopes, tail, n - 1);
        let before_tail = analyze_statements(first.scopes, tail.take(n - 1));
        let step = analyze_statement(before_tail.scopes, statements[n]);
        assert(analyze_statements(scopes, shorter).errors == first.errors + before_tail.errors);
        assert(analyze_statements(scopes, longer).errors == first.errors + (before_tail.errors
            + step.errors));
        assert(first.errors + (before_tail.errors + step.errors) =~= (first.errors
            + before_tail.errors) + step.errors);
    }
}

/// A walk changes nothing but the innermost scope: the stack keeps its
/// depth, and every scope under the innermost one stays as it was.
pub proof fn lemma_walk_keeps_outer_scopes(scopes: Scopes, statements: Seq<StatementView>)
    ensures
        analyze_statements(scopes, statements).scopes.len() == scopes.len(),
        forall|i: int|
            0 <= i < scopes.len() - 1 ==> analyze_statements(scopes, statements).scopes[i]
                == scopes[i],
    decreases statements, 1nat,
{
    if statements.len() > 0 {
        lemma_statement_keeps_outer_scopes(scopes, statements[0]);
        let first = analyze_statement(scopes, statements[0]);
        lemma_walk_keeps_outer_scopes(first.scopes, statements.drop_first());
    }
}

/// A statement changes nothing but the innermost scope.
pub proof fn lemma_statement_keeps_outer_scopes(scopes: Scopes, statement: StatementView)
    ensures
        analyze_statement(scopes, statement).scopes.len() == scopes.len(),
        forall|i: int|
            0 <= i < scopes.len() - 1 ==> analyze_statement(scopes, statement).scopes[i]
                == scopes[i],
    decreases statement, 0nat,
{
    if let StatementView::Loop { count, body } = statement {
        law_loop_restores_scopes(scopes, count, body);
    }
}

/// Scoping is lexical: after a loop the scope stack is what it was before
/// the loop, whatever the body declares.
pub proof fn law_loop_restores_scopes(
    scopes: Scopes,
    count: Seq<TermView>,
    body: Seq<StatementView>,
)
    ensures
        analyze_statement(scopes, StatementView::Loop { count, body }).scopes == scopes,
    decreases body, 2nat,
{
    let entered = scopes.push(Set::empty());
    lemma_walk_keeps_outer_scopes(entered, body);
    let inside = analyze_statements(entered, body);
    assert forall|i: int| 0 <= i < scopes.len() implies exit_from(inside.scopes)[i]
        == scopes[i] by {
        assert(inside.scopes[i] == entered[i]);
    }
    assert(exit_from(inside.scopes) =~= scopes);
}

/// A name that is not visible before a loop is not visible after it, even
/// if the body declares it: a use of it right after the loop gives exactly
/// one error, which names it, after the errors of the loop itself.
pub proof fn law_loop_local_name_is_invisible_after(
    scopes: Scopes,
    count: Seq<TermView>,
    body: Seq<StatementView>,
    name: Seq<char>,
)
    requires
        !is_declared(scopes, name),
    ensures
        ({
            let the_loop = StatementView::Loop { count, body };
            let the_use = StatementView::Print { value: seq![TermView::Identifier(name)] };
            let after_loop = analyze_statement(scopes, the_loop);
            &&& !is_declared(after_loop.scopes, name)
            &&& analyze_statement(after_loop.scopes, the_use).errors
                == seq![SemanticErrorView::UndeclaredVariable(name)]
            &&& analyze_statements(scopes, seq![the_loop, the_use]).errors == after_loop.errors
                + seq![SemanticErrorView::UndeclaredVariable(name)]
        }),
{
    let the_loop = StatementView::Loop { count, body };
    let the_use = StatementView::Print { value: seq![TermView::Identifier(name)] };
    let after_loop = analyze_statement(scopes, the_loop);
    law_loop_restores_scopes(scopes, count, body);
    let terms = seq![TermView::Identifier(name)];
    let one = seq![SemanticErrorView::UndeclaredVariable(name)];
    assert(expr_errors(scopes, terms) =~= one) by {
        assert(terms.drop_first() =~= Seq::<TermView>::empty());
        assert(expr_errors(scopes, terms.drop_first()) =~= Seq::<SemanticErrorView>::empty());
        assert(term_errors(scopes, terms[0]) =~= one);
    }
    let both = seq![the_loop, the_use];
    let rest = both.drop_first();
    assert(rest =~= seq![the_use]);
    assert(rest.drop_first() =~= Seq::<StatementView>::empty());
    assert(analyze_statements(scopes, rest.drop_first()).errors
        =~= Seq::<SemanticErrorView>::empty());
    assert(rest[0] == the_use);
    assert(analyze_statement(scopes, the_use).errors == expr_errors(scopes, terms));
    assert(one + Seq::<SemanticErrorView>::empty() =~= one);
    assert(analyze_statements(scopes, rest).errors =~= one);
    assert(both[0] == the_loop);
    assert(analyze_statements(scopes, both).errors =~= after_loop.errors + one);
}

/// Whether a statement of the list itself, not one inside a loop body,
/// declares `name`.
pub open spec fn declares_directly(statements: Seq<StatementView>, name: Seq<char>) -> bool
    decreases statements.len(),
{
    if statements.len() == 0 {
        false
    } else {
        (statements[0] matches StatementView::Let { identifier, .. } && identifier == name)
            || declares_directly(statements.drop_first(), name)
    }
}

/// After a declaration the names that were visible are visible, and the
/// declared name with them, and no other.
pub proof fn lemma_declare_in_visibility(scopes: Scopes, declared: Seq<char>, name: Seq<char>)
    requires
        scopes.len() > 0,
    ensures
        is_declared(declare_in(scopes, declared), name) == (is_declared(scopes, name) || declared
            == name),
{
    let after = declare_in(scopes, declared);
    let last = scopes.len() - 1;
    if is_declared(scopes, name) {
        let i = choose|i: int| 0 <= i < scopes.len() && #[trigger] scopes[i].contains(name);
        assert(after[i].contains(name));
    }
    if declared == name {
        assert(after[last].contains(name));
    }
    if is_declared(after, name) {
        let i = choose|i: int| 0 <= i < after.len() && #[trigger] after[i].contains(name);
        if declared != name {
            assert(scopes[i].contains(name));
        }
    }
}

/// The walk over a list and one more statement is the walk over the list,
/// continued with that statement.
pub proof fn lemma_analyze_statements_push(
    scopes: Scopes,
    before: Seq<StatementView>,
    next: StatementView,
)
    ensures
        ({
            let found = analyze_statements(scopes, before);
            let step = analyze_statement(found.scopes, next);
            analyze_statements(scopes, before.push(next)) == (Analysis {
                scopes: step.scopes,
                errors: found.errors + step.errors,
            })
        }),
{
    let all = before.push(next);
    let n = before.len() as int;
    assert(all.take(n) =~= before);
    assert(all.take(n + 1) =~= all);
    lemma_analyze_statements_step(scopes, all, n);
}

/// Scoping is lexical, in general: after the walk over a statement list a
/// name is visible exactly if it was visible before or a `let` of the list
/// itself declares it. What the loop bodies of the list declare, at any
/// depth, is gone.
pub proof fn law_only_direct_declarations_stay_visible(
    scopes: Scopes,
    statements: Seq<StatementView>,
    name: Seq<char>,
)
    requires
        scopes.len() > 0,
    ensures
        is_declared(analyze_statements(scopes, statements).scopes, name) == (is_declared(
            scopes,
            name,
        ) || declares_directly(statements, name)),
    decreases statements.len(),
{
    if statements.len() > 0 {
        let first = analyze_statement(scopes, statements[0]);
        lemma_statement_keeps_outer_scopes(scopes, statements[0]);
        match statements[0] {
            StatementView::Let { identifier, .. } => {
                lemma_declare_in_visibility(scopes, identifier, name);
            },
            StatementView::Loop { count, body } => {
                law_loop_restores_scopes(scopes, count, body);
            },
            _ => {},
        }
        law_only_direct_declarations_stay_visible(first.scopes, statements.drop_first(), name);
    }
}

/// A name that is declared only inside loop bodies is undeclared after
/// them: if `name` is not visible before the statements `before` and no
/// `let` of `before` itself declares it, then a use of `name` right after
/// `before` gives exactly one error, which names it, after the errors of
/// `before`. The loops may stand anywhere in `before` and nest to any
/// depth, and `scopes` may be those of any enclosing block.
pub proof fn law_name_of_loop_bodies_is_undeclared_after(
    scopes: Scopes,
    before: Seq<StatementView>,
    name: Seq<char>,
)
    requires
        scopes.len() > 0,
        !is_declared(scopes, name),
        !declares_directly(before, name),
    ensures
        ({
            let the_use = StatementView::Print { value: seq![TermView::Identifier(name)] };
            let found = analyze_statements(scopes, before);
            &&& !is_declared(found.scopes, name)
            &&& analyze_statements(scopes, before.push(the_use)).errors == found.errors
                + seq![SemanticErrorView::UndeclaredVariable(name)]
        }),
{
    let the_use = StatementView::Print { value: seq![TermView::Identifier(name)] };
    let found = analyze_statements(scopes, before);
    law_only_direct_declarations_stay_visible(scopes, before, name);
    lemma_analyze_statements_push(scopes, before, the_use);
    let terms = seq![TermView::Identifier(name)];
    let one = seq![SemanticErrorView::UndeclaredVariable(name)];
    assert(expr_errors(found.scopes, terms) =~= one) by {
        assert(terms.drop_first() =~= Seq::<TermView>::empty());
        assert(expr_errors(found.scopes, terms.drop_first())
            =~= Seq::<SemanticErrorView>::empty());
        assert(term_errors(found.scopes, terms[0]) =~= one);
    }
}

/// For a whole program: if no `let` of the program's top level declares
/// `name`, a use of `name` at the end of the program is an error, whatever
/// the loops of the program declare; and it is the only error if the rest
/// of the program has none.
pub proof fn law_program_name_of_loop_bodies_is_undeclared_after(
    program: Seq<StatementView>,
    name: Seq<char>,
)
    requires
        !declares_directly(program, name),
    ensures
        ({
            let the_use = StatementView::Print { value: seq![TermView::Identifier(name)] };
            program_errors(program.push(the_use)) == program_errors(program)
                + seq![SemanticErrorView::UndeclaredVariable(name)]
        }),
{
    let scopes: Scopes = seq![Set::empty()];
    assert(!is_declared(scopes, name)) by {
        if is_declared(scopes, name) {
            let i = choose|i: int| 0 <= i < scopes.len() && #[trigger] scopes[i].contains(name);
            assert(!scopes[0].contains(name));
        }
    }
    law_name_of_loop_bodies_is_undeclared_after(scopes, program, name);
}

/// How many of the errors name `name`.
pub open spec fn errors_naming(errors: Seq<SemanticErrorView>, name: Seq<char>) -> nat
    decreases errors.len(),
{
    if errors.len() == 0 {
        0
    } else {
        errors_naming(errors.drop_last(), name) + if errors.last()
            == SemanticErrorView::UndeclaredVariable(name) {
            1nat
        } else {
            0nat
        }
    }
}

/// How many terms of an expression are the identifier `name`.
pub open spec fn expr_uses(terms: Seq<TermView>, name: Seq<char>) -> nat
    decreases terms.len(),
{
    if terms.len() == 0 {
        0
    } else {
        (if terms[0] == TermView::Identifier(name) {
            1nat
        } else {
            0nat
        }) + expr_uses(terms.drop_first(), name)
    }
}

/// How many times a statement uses `name`: as the target of an assignment
/// or as a term of an expression, loop bodies included. The name that a
/// `let` declares is no use.
pub open spec fn statement_uses(statement: StatementView, name: Seq<char>) -> nat
    decreases statement, 0nat,
{
    match statement {
        StatementView::Let { identifier, value } => expr_uses(value, name),
        StatementView::Assignment { identifier, value } => (if identifier == name {
            1nat
        } else {
            0nat
        }) + expr_uses(value, name),
        StatementView::Loop { count, body } => expr_uses(count, name) + statements_use(body, name),
        StatementView::Print { value } => expr_uses(value, name),
    }
}

/// How many times the statements of a list use `name`.
pub open spec fn statements_use(statements: Seq<StatementView>, name: Seq<char>) -> nat
    decreases statements, 1nat,
{
    if statements.len() == 0 {
        0
    } else {
        statement_uses(statements[0], name) + statements_use(statements.drop_first(), name)
    }
}

/// Whether a statement declares `name`, in itself or in a loop body.
pub open spec fn statement_declares(statement: StatementView, name: Seq<char>) -> bool
    decreases statement, 0nat,
{
    match statement {
        StatementView::Let { identifier, .. } => identifier == name,
        StatementView::Loop { body, .. } => statements_declare(body, name),
        _ => false,
    }
}

/// Whether some statement of a list declares `name`.
pub open spec fn statements_declare(statements: Seq<StatementView>, name: Seq<char>) -> bool
    decreases statements, 1nat,
{
    if statements.len() == 0 {
        false
    } else {
        statement_declares(statements[0], name) || statements_declare(
            statements.drop_first(),
            name,
        )
    }
}

/// The errors of two lists, one after the other, name `name` as often as
/// the two lists do together.
pub proof fn lemma_errors_naming_concat(
    first: Seq<SemanticErrorView>,
    second: Seq<SemanticErrorView>,
    name: Seq<char>,
)
    ensures
        errors_naming(first + second, name) == errors_naming(first, name) + errors_naming(
            second,
            name,
        ),
    decreases second.len(),
{
    if second.len() == 0 {
        assert(first + second =~= first);
    } else {
        assert((first + second).drop_last() =~= first + second.drop_last());
        lemma_errors_naming_concat(first, second.drop_last(), name);
    }
}

/// A use gives at most one error, and one that names the name used.
proof fn lemma_use_errors_naming(scopes: Scopes, used: Seq<char>, name: Seq<char>)
    ensures
        errors_naming(use_errors(scopes, used), name) == if used == name && !is_declared(
            scopes,
            name,
        ) {
            1nat
        } else {
            0nat
        },
{
    let errors = use_errors(scopes, used);
    if errors.len() > 0 {
        assert(errors.drop_last() =~= Seq::<SemanticErrorView>::empty());
        assert(errors_naming(errors.drop_last(), name) == 0);
    }
}

/// The errors of an expression name `name` once for each term that is
/// `name`, if `name` is not declared, and never if it is.
pub proof fn lemma_expr_errors_naming(scopes: Scopes, terms: Seq<TermView>, name: Seq<char>)
    ensures
        errors_naming(expr_errors(scopes, terms), name) == if is_declared(scopes, name) {
            0nat
        } else {
            expr_uses(terms, name)
        },
    decreases terms.len(),
{
    if terms.len() > 0 {
        lemma_expr_errors_naming(scopes, terms.drop_first(), name);
        lemma_errors_naming_concat(
            term_errors(scopes, terms[0]),
            expr_errors(scopes, terms.drop_first()),
            name,
        );
        match terms[0] {
            TermView::Identifier(used) => {
                lemma_use_errors_naming(scopes, used, name);
            },
            TermView::Number(_) => {},
        }
    }
}

/// Errors accumulate: if nothing declares `name`, neither the scopes at the
/// start nor a `let` of the statements, then the walk gives exactly one
/// error that names `name` for every use of it, and `name` is still
/// undeclared afterwards.
pub proof fn law_one_error_per_undeclared_use(
    scopes: Scopes,
    statements: Seq<StatementView>,
    name: Seq<char>,
)
    requires
        !is_declared(scopes, name),
        !statements_declare(statements, name),
    ensures
        errors_naming(analyze_statements(scopes, statements).errors, name) == statements_use(
            statements,
            name,
        ),
        !is_declared(analyze_statements(scopes, statements).scopes, name),
    decreases statements, 1nat,
{
    if statements.len() > 0 {
        lemma_one_error_per_undeclared_use_of_statement(scopes, statements[0], name);
        let first = analyze_statement(scopes, statements[0]);
        law_one_error_per_undeclared_use(first.scopes, statements.drop_first(), name);
        let rest = analyze_statements(first.scopes, statements.drop_first());
        lemma_errors_naming_concat(first.errors, rest.errors, name);
    }
}

proof fn lemma_one_error_per_undeclared_use_of_statement(
    scopes: Scopes,
    statement: StatementView,
    name: Seq<char>,
)
    requires
        !is_declared(scopes, name),
        !statement_declares(statement, name),
    ensures
        errors_naming(analyze_statement(scopes, statement).errors, name) == statement_uses(
            statement,
            name,
        ),
        !is_declared(analyze_statement(scopes, statement).scopes, name),
    decreases statement, 0nat,
{
    match statement {
        StatementView::Let { identifier, value } => {
            let declared = declare_in(scopes, identifier);
            assert(!is_declared(declared, name)) by {
                if is_declared(declared, name) {
                    let i = choose|i: int|
                        0 <= i < declared.len() && #[trigger] declared[i].contains(name);
                    assert(scopes[i].contains(name));
                }
            }
            lemma_expr_errors_naming(declared, value, name);
        },
        StatementView::Assignment { identifier, value } => {
            lemma_use_errors_naming(scopes, identifier, name);
            lemma_expr_errors_naming(scopes, value, name);
            lemma_errors_naming_concat(
                use_errors(scopes, identifier),
                expr_errors(scopes, value),
                name,
            );
        },
        StatementView::Loop { count, body } => {
            let entered = scopes.push(Set::empty());
            assert(!is_declared(entered, name)) by {
                if is_declared(entered, name) {
                    let i = choose|i: int|
                        0 <= i < entered.len() && #[trigger] entered[i].contains(name);
                    assert(scopes[i].contains(name));
                }
            }
            law_one_error_per_undeclared_use(entered, body, name);
            law_loop_restores_scopes(scopes, count, body);
            lemma_expr_errors_naming(scopes, count, name);
            lemma_errors_naming_concat(
                expr_errors(scopes, count),
                analyze_statements(entered, body).errors,
                name,
            );
        },
        StatementView::Print { value } => {
            lemma_expr_errors_naming(scopes, value, name);
        },
    }
}

/// For a whole program: a name that no `let` of the program declares is
/// named by exactly as many errors as the program has uses of it.
pub proof fn law_program_reports_every_undeclared_use(
    program: Seq<StatementView>,
    name: Seq<char>,
)
    requires
        !statements_declare(program, name),
    ensures
        errors_naming(program_errors(program), name) == statements_use(program, name),
{
    let scopes: Scopes = seq![Set::empty()];
    assert(!is_declared(scopes, name)) by {
        if is_declared(scopes, name) {
            let i = choose|i: int| 0 <= i < scopes.len() && #[trigger] scopes[i].contains(name);
            assert(!scopes[0].contains(name));
        }
    }
    law_one_error_per_undeclared_use(scopes, program, name);
}

/// No error without a use: the errors of a walk never name `name` more
/// often than the statements use it.
pub proof fn law_errors_are_uses(scopes: Scopes, statements: Seq<StatementView>, name: Seq<char>)
    ensures
        errors_naming(analyze_statements(scopes, statements).errors, name) <= statements_use(
            statements,
            name,
        ),
    decreases statements, 1nat,
{
    if statements.len() > 0 {
        lemma_statement_errors_are_uses(scopes, statements[0], name);
        let first = analyze_statement(scopes, statements[0]);
        law_errors_are_uses(first.scopes, statements.drop_first(), name);
        let rest = analyze_statements(first.scopes, statements.drop_first());
        lemma_errors_naming_concat(first.errors, rest.errors, name);
    }
}

proof fn lemma_statement_errors_are_uses(scopes: Scopes, statement: StatementView, name: Seq<char>)
    ensures
        errors_naming(analyze_statement(scopes, statement).errors, name) <= statement_uses(
            statement,
            name,
        ),
    decreases statement, 0nat,
{
    match statement {
        StatementView::Let { identifier, value } => {
            lemma_expr_errors_naming(declare_in(scopes, identifier), value, name);
        },
        StatementView::Assignment { identifier, value } => {
            lemma_use_errors_naming(scopes, identifier, name);
            lemma_expr_errors_naming(scopes, value, name);
            lemma_errors_naming_concat(
                use_errors(scopes, identifier),
                expr_errors(scopes, value),
                name,
            );
        },
        StatementView::Loop { count, body } => {
            let entered = scopes.push(Set::empty());
            law_errors_are_uses(entered, body, name);
            lemma_expr_errors_naming(scopes, count, name);
            lemma_errors_naming_concat(
                expr_errors(scopes, count),
                analyze_statements(entered, body).errors,
                name,
            );
        },
        StatementView::Print { value } => {
            lemma_expr_errors_naming(scopes, value, name);
        },
    }
}

/// The walker: the scope stack and the errors found so far.
pub struct SemanticAnalyzer {
    scope_stack: ScopeStack,
    errors: Vec<SemanticError>,
}

impl SemanticAnalyzer {
    /// The scopes that are open.
    pub closed spec fn scopes(self) -> Scopes {
        self.scope_stack@
    }

    /// The errors found so far, in the order of the walk.
    pub closed spec fn errors(self) -> Seq<SemanticErrorView> {
        errors_view(self.errors@)
    }

    /// Whether the walker's state after a walk is its state before,
    /// continued by `found`.
    pub open spec fn continued(
        before: SemanticAnalyzer,
        after: SemanticAnalyzer,
        found: Analysis,
    ) -> bool {
        &&& after.scopes() == found.scopes
        &&& after.errors() == before.errors() + found.errors
    }

    fn new() -> (analyzer: SemanticAnalyzer)
        ensures
            analyzer.scopes() == seq![Set::<Seq<char>>::empty()],
            analyzer.errors() == Seq::<SemanticErrorView>::empty(),
    {
        let analyzer = SemanticAnalyzer { scope_stack: ScopeStack::new(), errors: Vec::new() };
        assert(analyzer.errors() =~= Seq::<SemanticErrorView>::empty());
        analyzer
    }

    /// Checks that every variable of the program is declared where it is used.
    ///
    /// Returns every violation, in the order of the walk, or `Ok` if there is none.
    pub fn analyze(ast: &AbstractSyntaxTree) -> (result: Result<(), Vec<SemanticError>>)
        ensures
            match result {
                Ok(_) => program_errors(ast@).len() == 0,
                Err(errors) => errors.len() > 0 && errors_view(errors@) == program_errors(ast@),
            },
    {
        let mut analyzer = SemanticAnalyzer::new();
        analyzer.analyze_statement_list(&ast.statement_list);
        assert(Seq::<SemanticErrorView>::empty() + program_errors(ast@) =~= program_errors(ast@));
        if analyzer.errors.len() == 0 {
            Ok(())
        } else {
            Err(analyzer.errors)
        }
    }

    fn analyze_statement_list(&mut self, statement_list: &StatementList)
        ensures
            Self::continued(
                *old(self),
                *final(self),
                analyze_statements(old(self).scopes(), statement_list@),
            ),
        decreases statement_list, 1nat,
    {
        let ghost all = statement_list@;
        let ghost start = *self;
        let mut i: usize = 0;
        proof {
            assert(all.take(0) =~= Seq::<StatementView>::empty());
            assert(self.errors() + Seq::<SemanticErrorView>::empty() =~= self.errors());
        }
        while i < statement_list.statements.len()
            invariant
                i <= statement_list.statements.len(),
                all == statement_list@,
                all.len() == statement_list.statements.len(),
                start == *old(self),
                Self::continued(
                    start,
                    *self,
                    analyze_statements(start.scopes(), all.take(i as int)),
                ),
            decreases statement_list.statements.len() - i,
        {
            let ghost before = *self;
            let ghost so_far = analyze_statements(start.scopes(), all.take(i as int));
            self.analyze_statement(&statement_list.statements[i]);
            proof {
                let step = analyze_statement(so_far.scopes, all[i as int]);
                lemma_analyze_statements_step(start.scopes(), all, i as int);
                assert((start.errors() + so_far.errors) + step.errors =~= start.errors() + (
                so_far.errors + step.errors));
            }
            i += 1;
        }
        proof {
            assert(all.take(i as int) =~= all);
        }
    }

    fn analyze_statement(&mut self, statement: &Statement)
        ensures
            Self::continued(
                *old(self),
                *final(self),
                analyze_statement(old(self).scopes(), statement@),
            ),
        decreases statement, 0nat,
    {
        match statement {
            Statement::Let(let_stmt) => self.analyze_let_statement(let_stmt),
            Statement::Assignment(assign_stmt) => self.analyze_assignment_statement(assign_stmt),
            Statement::Loop(loop_stmt) => self.analyze_loop_statement(loop_stmt),
            Statement::Print(print_stmt) => self.analyze_print_statement(print_stmt),
        }
    }

    fn analyze_let_statement(&mut self, let_stmt: &LetStatement)
        ensures
            Self::continued(
                *old(self),
                *final(self),
                analyze_statement(
                    old(self).scopes(),
                    StatementView::Let { identifier: let_stmt.identifier@, value: let_stmt.value@ },
                ),
            ),
    {
        self.scope_stack.declare(let_stmt.identifier.clone());
        self.analyze_expression(&let_stmt.value);
    }

    /// Records an error if `name` is not declared.
    fn check_use(&mut self, name: &String)
        ensures
            final(self).scopes() == old(self).scopes(),
            final(self).errors() == old(self).errors() + use_errors(old(self).scopes(), name@),
    {
        if !self.scope_stack.declared(name.as_str()) {
            self.errors.push(SemanticError::UndeclaredVariable(name.clone()));
            assert(self.errors() =~= old(self).errors() + use_errors(old(self).scopes(), name@));
        } else {
            assert(self.errors() =~= old(self).errors() + use_errors(old(self).scopes(), name@));
        }
    }

    fn analyze_assignment_statement(&mut self, assign_stmt: &AssignmentStatement)
        ensures
            Self::continued(
                *old(self),
                *final(self),
                analyze_statement(
                    old(self).scopes(),
                    StatementView::Assignment {
                        identifier: assign_stmt.identifier@,
                        value: assign_stmt.value@,
                    },
                ),
            ),
    {
        self.check_use(&assign_stmt.identifier);
        self.analyze_expression(&assign_stmt.value);
        proof {
            let scopes = old(self).scopes();
            assert((old(self).errors() + use_errors(scopes, assign_stmt.identifier@)) + expr_errors(
                scopes,
                assign_stmt.value@,
            ) =~= old(self).errors() + (use_errors(scopes, assign_stmt.identifier@) + expr_errors(
                scopes,
                assign_stmt.value@,
            )));
        }
    }

    fn analyze_loop_statement(&mut self, loop_stmt: &LoopStatement)
        ensures
            Self::continued(
                *old(self),
                *final(self),
                analyze_statement(
                    old(self).scopes(),
                    StatementView::Loop { count: loop_stmt.count@, body: loop_stmt.body@ },
                ),
            ),
        decreases loop_stmt,
    {
        self.analyze_expression(&loop_stmt.count);
        self.scope_stack.enter_scope();
        self.analyze_statement_list(&loop_stmt.body.statements);
        self.scope_stack.exit_scope();
        proof {
            let scopes = old(self).scopes();
            let inside = analyze_statements(scopes.push(Set::empty()), loop_stmt.body@);
            assert((old(self).errors() + expr_errors(scopes, loop_stmt.count@)) + inside.errors
                =~= old(self).errors() + (expr_errors(scopes, loop_stmt.count@) + inside.errors));
        }
    }

    fn analyze_print_statement(&mut self, print_stmt: &PrintStatement)
        ensures
            Self::continued(
                *old(self),
                *final(self),
                analyze_statement(
                    old(self).scopes(),
                    StatementView::Print { value: print_stmt.value@ },
                ),
            ),
    {
        self.analyze_expression(&print_stmt.value);
    }

    fn analyze_expression(&mut self, expr: &Expr)
        ensures
            final(self).scopes() == old(self).scopes(),
            final(self).errors() == old(self).errors() + expr_errors(old(self).scopes(), expr@),
        decreases expr,
    {
        self.analyze_term(&expr.lhs);
        let ghost scopes = old(self).scopes();
        if let Some(rhs_expr) = &expr.rhs {
            self.analyze_expression(rhs_expr);
            proof {
                assert(expr@.drop_first() =~= rhs_expr@);
                assert((old(self).errors() + term_errors(scopes, expr.lhs@)) + expr_errors(
                    scopes,
                    rhs_expr@,
                ) =~= old(self).errors() + (term_errors(scopes, expr.lhs@) + expr_errors(
                    scopes,
                    rhs_expr@,
                )));
            }
        } else {
            proof {
                assert(expr@.drop_first() =~= Seq::<TermView>::empty());
                assert(expr_errors(scopes, expr@.drop_first())
                    =~= Seq::<SemanticErrorView>::empty());
                assert(term_errors(scopes, expr.lhs@) + Seq::<SemanticErrorView>::empty()
                    =~= term_errors(scopes, expr.lhs@));
            }
        }
    }

    fn analyze_term(&mut self, term: &Term)
        ensures
            final(self).scopes() == old(self).scopes(),
            final(self).errors() == old(self).errors() + term_errors(old(self).scopes(), term@),
    {
        match term {
            Term::Identifier(name) => {
                self.check_use(name);
            },
            Term::Number(_) => {
                assert(self.errors() + Seq::<SemanticErrorView>::empty() =~= self.errors());
            },
        }
    }
}

} // verus!

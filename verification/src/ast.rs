use vstd::prelude::*;

verus! {

/// Mathematical value of a [`Term`]: the name as a sequence of characters, or the literal.
pub enum TermView {
    Identifier(Seq<char>),
    Number(i32),
}

/// Mathematical value of a [`Statement`]. An expression is the non-empty
/// sequence of its terms, a statement list the sequence of its statements.
pub enum StatementView {
    Let { identifier: Seq<char>, value: Seq<TermView> },
    Assignment { identifier: Seq<char>, value: Seq<TermView> },
    Loop { count: Seq<TermView>, body: Seq<StatementView> },
    Print { value: Seq<TermView> },
}

#[derive(Debug)]
pub enum Term {
    Identifier(String),
    Number(i32),
}

#[derive(Debug)]
pub struct Expr {
    pub lhs: Term,
    pub rhs: Option<Box<Expr>>,
}

#[derive(Debug)]
pub struct LetStatement {
    pub identifier: String,
    pub value: Expr,
}

#[derive(Debug)]
pub struct AssignmentStatement {
    pub identifier: String,
    pub value: Expr,
}

#[derive(Debug)]
pub struct Block {
    pub statements: Box<StatementList>,
}

#[derive(Debug)]
pub struct LoopStatement {
    pub count: Expr,
    pub body: Box<Block>,
}

#[derive(Debug)]
pub struct PrintStatement {
    pub value: Expr,
}

#[derive(Debug)]
pub enum Statement {
    Let(LetStatement),
    Assignment(AssignmentStatement),
    Loop(LoopStatement),
    Print(PrintStatement),
}

#[derive(Debug)]
pub struct StatementList {
    pub statements: Vec<Statement>,
}

#[derive(Debug)]
pub struct AbstractSyntaxTree {
    pub statement_list: StatementList,
}

impl View for Term {
    type V = TermView;

    open spec fn view(&self) -> TermView {
        match self {
            Term::Identifier(name) => TermView::Identifier(name@),
            Term::Number(n) => TermView::Number(*n),
        }
    }
}

impl Expr {
    /// The terms of the chain, first to last.
    pub open spec fn terms(self) -> Seq<TermView>
        decreases self,
    {
        match self.rhs {
            Some(rest) => seq![self.lhs@] + rest.terms(),
            None => seq![self.lhs@],
        }
    }
}

/// An expression has at least one term.
pub proof fn lemma_expr_nonempty(expr: Expr)
    ensures
        expr@.len() >= 1,
{
}

impl View for Expr {
    type V = Seq<TermView>;

    open spec fn view(&self) -> Seq<TermView> {
        self.terms()
    }
}

impl Statement {
    /// The statement as a mathematical value.
    pub open spec fn model(self) -> StatementView
        decreases self, 0nat,
    {
        match self {
            Statement::Let(s) => StatementView::Let { identifier: s.identifier@, value: s.value@ },
            Statement::Assignment(s) => StatementView::Assignment {
                identifier: s.identifier@,
                value: s.value@,
            },
            Statement::Loop(s) => StatementView::Loop {
                count: s.count@,
                body: statements_model(s.body.statements.statements@),
            },
            Statement::Print(s) => StatementView::Print { value: s.value@ },
        }
    }
}

/// The statements of a list as mathematical values, in the same order.
pub open spec fn statements_model(statements: Seq<Statement>) -> Seq<StatementView>
    decreases statements, 1nat,
{
    Seq::new(
        statements.len(),
        |i: int|
            if 0 <= i < statements.len() {
                statements[i].model()
            } else {
                arbitrary()
            },
    )
}

impl View for Statement {
    type V = StatementView;

    open spec fn view(&self) -> StatementView {
        self.model()
    }
}

impl View for StatementList {
    type V = Seq<StatementView>;

    open spec fn view(&self) -> Seq<StatementView> {
        statements_model(self.statements@)
    }
}

impl View for Block {
    type V = Seq<StatementView>;

    open spec fn view(&self) -> Seq<StatementView> {
        self.statements@
    }
}

impl View for AbstractSyntaxTree {
    type V = Seq<StatementView>;

    open spec fn view(&self) -> Seq<StatementView> {
        self.statement_list@
    }
}

} // verus!

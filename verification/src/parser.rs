//! Syntax analysis: tokens to a syntax tree, by recursive descent.
//!
//! ```text
//! Program       := Statement*                  (to the end of the tokens)
//! Statement     := Let | Assign | Loop | Print
//! Let           := 'let' Identifier '=' Expr ';'
//! Assign        := Identifier '=' Expr ';'
//! Loop          := 'loop' Expr Block ';'
//! Print         := 'print' Expr ';'
//! Block         := '{' Statement* '}'
//! Expr          := Term ('+' Expr)?
//! Term          := Identifier | Number
//! ```
//!
//! The spec functions `parse_*` read one construct at a position of a token
//! sequence and give its value and the position after it, or the position
//! of the first token that does not fit.

use crate::ast::{
    statements_model, AbstractSyntaxTree, AssignmentStatement, Block, Expr, LetStatement,
    LoopStatement, PrintStatement, Statement, StatementList, StatementView, Term, TermView,
};
use crate::lexer::{tokens_view, Token, TokenView};
use vstd::prelude::*;

verus! {

/// Why the parser stopped. Parsing never recovers: the first error ends it.
#[derive(Debug, Clone, Copy, PartialEq, Eq, Structural)]
pub enum ParseError {
    /// The token at index `position` does not fit the grammar there.
    UnexpectedToken { position: usize },
    /// The tokens end where the grammar asks for more.
    UnexpectedEnd,
}

/// Outcome of reading one construct at a position of a token sequence.
pub enum Parsed<T> {
    /// The construct's value, and the position after its last token.
    Done { value: T, next: int },
    /// The position of the first token that does not fit; the length of the
    /// sequence if the tokens end too early.
    Failed { at: int },
}

/// The error for a failure at position `at`.
pub open spec fn parse_error_at(tokens: Seq<TokenView>, at: int) -> ParseError {
    if at < tokens.len() {
        ParseError::UnexpectedToken { position: at as usize }
    } else {
        ParseError::UnexpectedEnd
    }
}

/// Whether the token at `pos` exists and is `token`.
pub open spec fn token_is(tokens: Seq<TokenView>, pos: int, token: TokenView) -> bool {
    0 <= pos < tokens.len() && tokens[pos] == token
}

/// The term that the token at `pos` denotes, if it is an identifier or a number.
pub open spec fn term_at(tokens: Seq<TokenView>, pos: int) -> Option<TermView> {
    if 0 <= pos < tokens.len() {
        match tokens[pos] {
            TokenView::Identifier(name) => Some(TermView::Identifier(name)),
            TokenView::Number(n) => Some(TermView::Number(n)),
            _ => None,
        }
    } else {
        None
    }
}

/// `Expr := Term ('+' Expr)?`
pub open spec fn parse_expr(tokens: Seq<TokenView>, pos: int) -> Parsed<Seq<TermView>>
    decreases tokens.len() - pos,
{
    match term_at(tokens, pos) {
        None => Parsed::Failed { at: pos },
        Some(term) => if token_is(tokens, pos + 1, TokenView::Plus) {
            match parse_expr(tokens, pos + 2) {
                Parsed::Done { value, next } => Parsed::Done { value: seq![term] + value, next },
                Parsed::Failed { at } => Parsed::Failed { at },
            }
        } else {
            Parsed::Done { value: seq![term], next: pos + 1 }
        },
    }
}

/// `Expr ';'`: an expression and the semicolon that ends a statement.
pub open spec fn parse_expr_semicolon(tokens: Seq<TokenView>, pos: int) -> Parsed<Seq<TermView>> {
    match parse_expr(tokens, pos) {
        Parsed::Done { value, next } => if token_is(tokens, next, TokenView::Semicolon) {
            Parsed::Done { value, next: next + 1 }
        } else {
            Parsed::Failed { at: next }
        },
        Parsed::Failed { at } => Parsed::Failed { at },
    }
}

/// `'let' Identifier '=' Expr ';'`
pub open spec fn parse_let(tokens: Seq<TokenView>, pos: int) -> Parsed<StatementView> {
    if !token_is(tokens, pos, TokenView::Let) {
        Parsed::Failed { at: pos }
    } else if !(term_at(tokens, pos + 1) matches Some(TermView::Identifier(_))) {
        Parsed::Failed { at: pos + 1 }
    } else if !token_is(tokens, pos + 2, TokenView::Equals) {
        Parsed::Failed { at: pos + 2 }
    } else {
        match parse_expr_semicolon(tokens, pos + 3) {
            Parsed::Done { value, next } => Parsed::Done {
                value: StatementView::Let { identifier: tokens[pos + 1]->Identifier_0, value },
                next,
            },
            Parsed::Failed { at } => Parsed::Failed { at },
        }
    }
}

/// `Identifier '=' Expr ';'`
pub open spec fn parse_assignment(tokens: Seq<TokenView>, pos: int) -> Parsed<StatementView> {
    if !(term_at(tokens, pos) matches Some(TermView::Identifier(_))) {
        Parsed::Failed { at: pos }
    } else if !token_is(tokens, pos + 1, TokenView::Equals) {
        Parsed::Failed { at: pos + 1 }
    } else {
        match parse_expr_semicolon(tokens, pos + 2) {
            Parsed::Done { value, next } => Parsed::Done {
                value: StatementView::Assignment { identifier: tokens[pos]->Identifier_0, value },
                next,
            },
            Parsed::Failed { at } => Parsed::Failed { at },
        }
    }
}

/// `'print' Expr ';'`
pub open spec fn parse_print(tokens: Seq<TokenView>, pos: int) -> Parsed<StatementView> {
    if !token_is(tokens, pos, TokenView::Print) {
        Parsed::Failed { at: pos }
    } else {
        match parse_expr_semicolon(tokens, pos + 1) {
            Parsed::Done { value, next } => Parsed::Done {
                value: StatementView::Print { value },
                next,
            },
            Parsed::Failed { at } => Parsed::Failed { at },
        }
    }
}

/// A statement, chosen by the token at `pos` alone.
pub open spec fn parse_statement(tokens: Seq<TokenView>, pos: int) -> Parsed<StatementView>
    decreases tokens.len() - pos, 2nat,
{
    if !(0 <= pos < tokens.len()) {
        Parsed::Failed { at: pos }
    } else {
        match tokens[pos] {
            TokenView::Let => parse_let(tokens, pos),
            TokenView::Identifier(_) => parse_assignment(tokens, pos),
            TokenView::Loop => parse_loop(tokens, pos),
            TokenView::Print => parse_print(tokens, pos),
            _ => Parsed::Failed { at: pos },
        }
    }
}

/// `'loop' Expr Block ';'`
pub open spec fn parse_loop(tokens: Seq<TokenView>, pos: int) -> Parsed<StatementView>
    decreases tokens.len() - pos, 1nat,
{
    if !token_is(tokens, pos, TokenView::Loop) {
        Parsed::Failed { at: pos }
    } else {
        match parse_expr(tokens, pos + 1) {
            Parsed::Failed { at } => Parsed::Failed { at },
            Parsed::Done { value: count, next: open } => if !token_is(
                tokens,
                open,
                TokenView::OpenBracket,
            ) {
                Parsed::Failed { at: open }
            } else if open <= pos {
                // Never the case: an expression has at least one token.
                Parsed::Failed { at: open }
            } else {
                match parse_block_rest(tokens, open + 1) {
                    Parsed::Failed { at } => Parsed::Failed { at },
                    Parsed::Done { value: body, next } => if token_is(
                        tokens,
                        next,
                        TokenView::Semicolon,
                    ) {
                        Parsed::Done { value: StatementView::Loop { count, body }, next: next + 1 }
                    } else {
                        Parsed::Failed { at: next }
                    },
                }
            },
        }
    }
}

/// `Statement* '}'`: what is left of a block after its opening bracket.
pub open spec fn parse_block_rest(tokens: Seq<TokenView>, pos: int) -> Parsed<Seq<StatementView>>
    decreases tokens.len() - pos, 3nat,
{
    if token_is(tokens, pos, TokenView::CloseBracket) {
        Parsed::Done { value: Seq::empty(), next: pos + 1 }
    } else {
        match parse_statement(tokens, pos) {
            Parsed::Failed { at } => Parsed::Failed { at },
            Parsed::Done { value: first, next } => if !(pos < next <= tokens.len()) {
                // Never the case: a statement has at least one token.
                Parsed::Failed { at: next }
            } else {
                match parse_block_rest(tokens, next) {
                    Parsed::Failed { at } => Parsed::Failed { at },
                    Parsed::Done { value: rest, next } => Parsed::Done {
                        value: seq![first] + rest,
                        next,
                    },
                }
            },
        }
    }
}

/// `Statement*` to the end of the tokens.
pub open spec fn parse_program(tokens: Seq<TokenView>, pos: int) -> Parsed<Seq<StatementView>>
    decreases tokens.len() - pos,
{
    if pos >= tokens.len() {
        Parsed::Done { value: Seq::empty(), next: pos }
    } else {
        match parse_statement(tokens, pos) {
            Parsed::Failed { at } => Parsed::Failed { at },
            Parsed::Done { value: first, next } => if !(pos < next <= tokens.len()) {
                // Never the case: a statement has at least one token.
                Parsed::Failed { at: next }
            } else {
                match parse_program(tokens, next) {
                    Parsed::Failed { at } => Parsed::Failed { at },
                    Parsed::Done { value: rest, next } => Parsed::Done {
                        value: seq![first] + rest,
                        next,
                    },
                }
            },
        }
    }
}

/// The program that a whole token sequence denotes, or the error.
pub open spec fn parse_tokens(tokens: Seq<TokenView>) -> Result<Seq<StatementView>, ParseError> {
    match parse_program(tokens, 0) {
        Parsed::Done { value, .. } => Ok(value),
        Parsed::Failed { at } => Err(parse_error_at(tokens, at)),
    }
}

/// An expression takes at least one token, and a failure lies at or after
/// the start and within the sequence or at its end.
pub proof fn lemma_parse_expr_bounds(tokens: Seq<TokenView>, pos: int)
    requires
        0 <= pos <= tokens.len(),
    ensures
        match parse_expr(tokens, pos) {
            Parsed::Done { value, next } => pos < next <= tokens.len() && value.len() >= 1,
            Parsed::Failed { at } => pos <= at <= tokens.len(),
        },
    decreases tokens.len() - pos,
{
    if term_at(tokens, pos) is Some && token_is(tokens, pos + 1, TokenView::Plus) {
        lemma_parse_expr_bounds(tokens, pos + 2);
    }
}

/// A statement takes at least one token, and a failure lies at or after the
/// start and within the sequence or at its end.
pub proof fn lemma_parse_statement_bounds(tokens: Seq<TokenView>, pos: int)
    requires
        0 <= pos <= tokens.len(),
    ensures
        match parse_statement(tokens, pos) {
            Parsed::Done { next, .. } => pos < next <= tokens.len(),
            Parsed::Failed { at } => pos <= at <= tokens.len(),
        },
    decreases tokens.len() - pos, 2nat,
{
    if pos < tokens.len() {
        lemma_parse_expr_bounds(tokens, pos + 1);
        if pos + 2 <= tokens.len() {
            lemma_parse_expr_bounds(tokens, pos + 2);
        }
        if pos + 3 <= tokens.len() {
            lemma_parse_expr_bounds(tokens, pos + 3);
        }
        if tokens[pos] is Loop {
            lemma_parse_loop_bounds(tokens, pos);
        }
    }
}

proof fn lemma_parse_loop_bounds(tokens: Seq<TokenView>, pos: int)
    requires
        0 <= pos < tokens.len(),
    ensures
        match parse_loop(tokens, pos) {
            Parsed::Done { next, .. } => pos < next <= tokens.len(),
            Parsed::Failed { at } => pos <= at <= tokens.len(),
        },
    decreases tokens.len() - pos, 1nat,
{
    lemma_parse_expr_bounds(tokens, pos + 1);
    if let Parsed::Done { next: open, .. } = parse_expr(tokens, pos + 1) {
        if token_is(tokens, open, TokenView::OpenBracket) {
            lemma_parse_block_rest_bounds(tokens, open + 1);
        }
    }
}

/// The rest of a block takes at least its closing bracket.
pub proof fn lemma_parse_block_rest_bounds(tokens: Seq<TokenView>, pos: int)
    requires
        0 <= pos <= tokens.len(),
    ensures
        match parse_block_rest(tokens, pos) {
            Parsed::Done { next, .. } => pos < next <= tokens.len(),
            Parsed::Failed { at } => pos <= at <= tokens.len(),
        },
    decreases tokens.len() - pos, 3nat,
{
    if !token_is(tokens, pos, TokenView::CloseBracket) {
        lemma_parse_statement_bounds(tokens, pos);
        if let Parsed::Done { next, .. } = parse_statement(tokens, pos) {
            lemma_parse_block_rest_bounds(tokens, next);
        }
    }
}

/// A program is read to the end of the tokens.
pub proof fn lemma_parse_program_bounds(tokens: Seq<TokenView>, pos: int)
    requires
        0 <= pos <= tokens.len(),
    ensures
        match parse_program(tokens, pos) {
            Parsed::Done { next, .. } => next == tokens.len(),
            Parsed::Failed { at } => pos <= at <= tokens.len(),
        },
    decreases tokens.len() - pos,
{
    if pos < tokens.len() {
        lemma_parse_statement_bounds(tokens, pos);
        if let Parsed::Done { next, .. } = parse_statement(tokens, pos) {
            lemma_parse_program_bounds(tokens, next);
        }
    }
}

/// A recursive-descent parser over a token sequence, with one position of state.
pub struct Parser {
    tokens: Vec<Token>,
    position: usize,
}

impl Parser {
    #[verifier::type_invariant]
    spec fn well_formed(self) -> bool {
        self.position <= self.tokens.len()
    }

    /// The tokens that the parser was made with.
    pub closed spec fn tokens(self) -> Seq<TokenView> {
        tokens_view(self.tokens@)
    }

    /// How many tokens have been consumed.
    pub closed spec fn position(self) -> int {
        self.position as int
    }

    /// Whether `result` and the parser's state after the call are what
    /// `expected` says of the state before it.
    pub open spec fn agrees<T: View>(
        before: Parser,
        after: Parser,
        result: Result<T, ParseError>,
        expected: Parsed<T::V>,
    ) -> bool {
        &&& after.tokens() == before.tokens()
        &&& match expected {
            Parsed::Done { value, next } => {
                &&& result matches Ok(tree)
                &&& tree@ == value
                &&& after.position() == next
            },
            Parsed::Failed { at } => {
                &&& result matches Err(e)
                &&& e == parse_error_at(before.tokens(), at)
                &&& after.position() == at
            },
        }
    }

    /// A parser that stands before the first of `tokens`.
    pub fn new(tokens: Vec<Token>) -> (parser: Parser)
        ensures
            parser.tokens() == tokens_view(tokens@),
            parser.position() == 0,
    {
        Parser { tokens, position: 0 }
    }

    /// The token at the current position, if any is left.
    fn current_token(&self) -> (token: Option<&Token>)
        ensures
            0 <= self.position() <= self.tokens().len(),
            self.position() < self.tokens().len() ==> (token matches Some(t) && t@
                == self.tokens()[self.position()]),
            self.position() >= self.tokens().len() ==> token is None,
    {
        proof {
            use_type_invariant(self);
        }
        if self.position < self.tokens.len() {
            Some(&self.tokens[self.position])
        } else {
            None
        }
    }

    /// Steps over the current token.
    fn consume_token(&mut self)
        requires
            old(self).position() < old(self).tokens().len(),
        ensures
            final(self).tokens() == old(self).tokens(),
            final(self).position() == old(self).position() + 1,
    {
        proof {
            use_type_invariant(&*self);
        }
        self.position += 1;
    }

    /// The error for a token that does not fit at the current position.
    fn unexpected(&self) -> (e: ParseError)
        ensures
            e == parse_error_at(self.tokens(), self.position()),
    {
        if self.position < self.tokens.len() {
            ParseError::UnexpectedToken { position: self.position }
        } else {
            ParseError::UnexpectedEnd
        }
    }

    /// Parses the remaining tokens as a program.
    ///
    /// On success every token has been consumed. On failure the parser
    /// stands on the token that did not fit.
    pub fn parse(&mut self) -> (result: Result<AbstractSyntaxTree, ParseError>)
        ensures
            Self::agrees(
                *old(self),
                *final(self),
                result,
                parse_program(old(self).tokens(), old(self).position()),
            ),
            result is Ok ==> final(self).position() == final(self).tokens().len(),
    {
        proof {
            use_type_invariant(&*self);
            lemma_parse_program_bounds(self.tokens(), self.position());
        }
        match self.parse_statement_list() {
            Ok(statement_list) => Ok(AbstractSyntaxTree { statement_list }),
            Err(e) => Err(e),
        }
    }

    fn parse_statement_list(&mut self) -> (result: Result<StatementList, ParseError>)
        ensures
            Self::agrees(
                *old(self),
                *final(self),
                result,
                parse_program(old(self).tokens(), old(self).position()),
            ),
    {
        let mut statements: Vec<Statement> = Vec::new();
        let ghost tokens = self.tokens();
        let ghost start = self.position();
        proof {
            use_type_invariant(&*self);
        }
        loop
            invariant
                self.tokens() == tokens,
                tokens == old(self).tokens(),
                start == old(self).position(),
                0 <= self.position() <= tokens.len(),
                parse_program(tokens, start) == match parse_program(tokens, self.position()) {
                    Parsed::Done { value, next } => Parsed::Done {
                        value: statements_model(statements@) + value,
                        next,
                    },
                    Parsed::Failed { at } => Parsed::Failed { at },
                },
            decreases tokens.len() - self.position(),
        {
            let ghost done = statements_model(statements@);
            let ghost here = self.position();
            if self.current_token().is_none() {
                proof {
                    assert(done + Seq::<StatementView>::empty() =~= done);
                }
                return Ok(StatementList { statements });
            }
            proof {
                lemma_parse_statement_bounds(tokens, here);
            }
            match self.parse_statement() {
                Ok(statement) => {
                    statements.push(statement);
                    proof {
                        assert(statements_model(statements@) =~= done + seq![statement@]);
                        if let Parsed::Done { value, .. } = parse_program(tokens, self.position()) {
                            assert(done + (seq![statement@] + value) =~= statements_model(
                                statements@,
                            ) + value);
                        }
                    }
                },
                Err(e) => {
                    return Err(e);
                },
            }
        }
    }

    fn parse_statement(&mut self) -> (result: Result<Statement, ParseError>)
        ensures
            Self::agrees(
                *old(self),
                *final(self),
                result,
                parse_statement(old(self).tokens(), old(self).position()),
            ),
        decreases old(self).tokens().len() - old(self).position(), 2nat,
    {
        match self.current_token() {
            Some(Token::Let) => match self.parse_let_statement() {
                Ok(s) => Ok(Statement::Let(s)),
                Err(e) => Err(e),
            },
            Some(Token::Identifier(_)) => match self.parse_assignment_statement() {
                Ok(s) => Ok(Statement::Assignment(s)),
                Err(e) => Err(e),
            },
            Some(Token::Loop) => match self.parse_loop_statement() {
                Ok(s) => Ok(Statement::Loop(s)),
                Err(e) => Err(e),
            },
            Some(Token::Print) => match self.parse_print_statement() {
                Ok(s) => Ok(Statement::Print(s)),
                Err(e) => Err(e),
            },
            _ => Err(self.unexpected()),
        }
    }

    /// Reads the expression of a statement and the semicolon after it.
    fn parse_value(&mut self) -> (result: Result<Expr, ParseError>)
        ensures
            Self::agrees(
                *old(self),
                *final(self),
                result,
                parse_expr_semicolon(old(self).tokens(), old(self).position()),
            ),
    {
        let value = match self.parse_expression() {
            Ok(value) => value,
            Err(e) => {
                return Err(e);
            },
        };
        match self.current_token() {
            Some(Token::Semicolon) => {
                self.consume_token();
                Ok(value)
            },
            _ => Err(self.unexpected()),
        }
    }

    /// Reads the identifier at the current position.
    fn parse_identifier(&mut self) -> (result: Result<String, ParseError>)
        ensures
            final(self).tokens() == old(self).tokens(),
            match term_at(old(self).tokens(), old(self).position()) {
                Some(TermView::Identifier(name)) => {
                    &&& result matches Ok(s)
                    &&& s@ == name
                    &&& final(self).position() == old(self).position() + 1
                },
                _ => {
                    &&& result matches Err(e)
                    &&& e == parse_error_at(old(self).tokens(), old(self).position())
                    &&& final(self).position() == old(self).position()
                },
            },
    {
        let identifier = match self.current_token() {
            Some(Token::Identifier(name)) => name.clone(),
            _ => {
                return Err(self.unexpected());
            },
        };
        self.consume_token();
        Ok(identifier)
    }

    fn parse_let_statement(&mut self) -> (result: Result<LetStatement, ParseError>)
        ensures
            final(self).tokens() == old(self).tokens(),
            match parse_let(old(self).tokens(), old(self).position()) {
                Parsed::Done { value, next } => {
                    &&& result matches Ok(s)
                    &&& Statement::Let(s)@ == value
                    &&& final(self).position() == next
                },
                Parsed::Failed { at } => {
                    &&& result matches Err(e)
                    &&& e == parse_error_at(old(self).tokens(), at)
                    &&& final(self).position() == at
                },
            },
    {
        match self.current_token() {
            Some(Token::Let) => {
                self.consume_token();
            },
            _ => {
                return Err(self.unexpected());
            },
        }
        let identifier = match self.parse_identifier() {
            Ok(identifier) => identifier,
            Err(e) => {
                return Err(e);
            },
        };
        match self.current_token() {
            Some(Token::Equals) => {
                self.consume_token();
            },
            _ => {
                return Err(self.unexpected());
            },
        }
        match self.parse_value() {
            Ok(value) => Ok(LetStatement { identifier, value }),
            Err(e) => Err(e),
        }
    }

    fn parse_assignment_statement(&mut self) -> (result: Result<AssignmentStatement, ParseError>)
        ensures
            final(self).tokens() == old(self).tokens(),
            match parse_assignment(old(self).tokens(), old(self).position()) {
                Parsed::Done { value, next } => {
                    &&& result matches Ok(s)
                    &&& Statement::Assignment(s)@ == value
                    &&& final(self).position() == next
                },
                Parsed::Failed { at } => {
                    &&& result matches Err(e)
                    &&& e == parse_error_at(old(self).tokens(), at)
                    &&& final(self).position() == at
                },
            },
    {
        let identifier = match self.parse_identifier() {
            Ok(identifier) => identifier,
            Err(e) => {
                return Err(e);
            },
        };
        match self.current_token() {
            Some(Token::Equals) => {
                self.consume_token();
            },
            _ => {
                return Err(self.unexpected());
            },
        }
        match self.parse_value() {
            Ok(value) => Ok(AssignmentStatement { identifier, value }),
            Err(e) => Err(e),
        }
    }

    fn parse_block(&mut self) -> (result: Result<Block, ParseError>)
        requires
            old(self).position() < old(self).tokens().len(),
            old(self).tokens()[old(self).position()] == TokenView::OpenBracket,
        ensures
            Self::agrees(
                *old(self),
                *final(self),
                result,
                parse_block_rest(old(self).tokens(), old(self).position() + 1),
            ),
        decreases old(self).tokens().len() - old(self).position() - 1, 4nat,
    {
        self.consume_token();
        let mut statements: Vec<Statement> = Vec::new();
        let ghost tokens = self.tokens();
        let ghost start = self.position();
        proof {
            use_type_invariant(&*self);
        }
        loop
            invariant
                self.tokens() == tokens,
                start <= self.position() <= tokens.len(),
                start == old(self).position() + 1,
                tokens == old(self).tokens(),
                parse_block_rest(tokens, start) == match parse_block_rest(tokens, self.position()) {
                    Parsed::Done { value, next } => Parsed::Done {
                        value: statements_model(statements@) + value,
                        next,
                    },
                    Parsed::Failed { at } => Parsed::Failed { at },
                },
            decreases tokens.len() - self.position(),
        {
            let ghost done = statements_model(statements@);
            let ghost here = self.position();
            if let Some(Token::CloseBracket) = self.current_token() {
                self.consume_token();
                proof {
                    assert(done + Seq::<StatementView>::empty() =~= done);
                }
                return Ok(Block { statements: Box::new(StatementList { statements }) });
            }
            proof {
                lemma_parse_statement_bounds(tokens, here);
            }
            match self.parse_statement() {
                Ok(statement) => {
                    statements.push(statement);
                    proof {
                        assert(statements_model(statements@) =~= done + seq![statement@]);
                        if let Parsed::Done { value, .. } = parse_block_rest(
                            tokens,
                            self.position(),
                        ) {
                            assert(done + (seq![statement@] + value) =~= statements_model(
                                statements@,
                            ) + value);
                        }
                    }
                },
                Err(e) => {
                    return Err(e);
                },
            }
        }
    }

    fn parse_loop_statement(&mut self) -> (result: Result<LoopStatement, ParseError>)
        ensures
            final(self).tokens() == old(self).tokens(),
            match parse_loop(old(self).tokens(), old(self).position()) {
                Parsed::Done { value, next } => {
                    &&& result matches Ok(s)
                    &&& Statement::Loop(s)@ == value
                    &&& final(self).position() == next
                },
                Parsed::Failed { at } => {
                    &&& result matches Err(e)
                    &&& e == parse_error_at(old(self).tokens(), at)
                    &&& final(self).position() == at
                },
            },
        decreases old(self).tokens().len() - old(self).position(), 1nat,
    {
        match self.current_token() {
            Some(Token::Loop) => {
                self.consume_token();
            },
            _ => {
                return Err(self.unexpected());
            },
        }
        proof {
            lemma_parse_expr_bounds(self.tokens(), self.position());
        }
        let count = match self.parse_expression() {
            Ok(count) => count,
            Err(e) => {
                return Err(e);
            },
        };
        match self.current_token() {
            Some(Token::OpenBracket) => {},
            _ => {
                return Err(self.unexpected());
            },
        }
        let body = match self.parse_block() {
            Ok(body) => body,
            Err(e) => {
                return Err(e);
            },
        };
        match self.current_token() {
            Some(Token::Semicolon) => {
                self.consume_token();
                Ok(LoopStatement { count, body: Box::new(body) })
            },
            _ => Err(self.unexpected()),
        }
    }

    fn parse_print_statement(&mut self) -> (result: Result<PrintStatement, ParseError>)
        ensures
            final(self).tokens() == old(self).tokens(),
            match parse_print(old(self).tokens(), old(self).position()) {
                Parsed::Done { value, next } => {
                    &&& result matches Ok(s)
                    &&& Statement::Print(s)@ == value
                    &&& final(self).position() == next
                },
                Parsed::Failed { at } => {
                    &&& result matches Err(e)
                    &&& e == parse_error_at(old(self).tokens(), at)
                    &&& final(self).position() == at
                },
            },
    {
        match self.current_token() {
            Some(Token::Print) => {
                self.consume_token();
            },
            _ => {
                return Err(self.unexpected());
            },
        }
        match self.parse_value() {
            Ok(value) => Ok(PrintStatement { value }),
            Err(e) => Err(e),
        }
    }

    fn parse_expression(&mut self) -> (result: Result<Expr, ParseError>)
        ensures
            Self::agrees(
                *old(self),
                *final(self),
                result,
                parse_expr(old(self).tokens(), old(self).position()),
            ),
        decreases old(self).tokens().len() - old(self).position(),
    {
        let lhs = match self.current_token() {
            Some(Token::Identifier(name)) => Term::Identifier(name.clone()),
            Some(Token::Number(n)) => Term::Number(*n),
            _ => {
                return Err(self.unexpected());
            },
        };
        self.consume_token();
        let rhs = if let Some(Token::Plus) = self.current_token() {
            self.consume_token();
            match self.parse_expression() {
                Ok(rest) => Some(Box::new(rest)),
                Err(e) => {
                    return Err(e);
                },
            }
        } else {
            None
        };
        Ok(Expr { lhs, rhs })
    }
}

} // verus!

//! The grammar as a rendering of programs to tokens, and the laws that tie
//! the parser to it: the parser reads exactly the token sequences that
//! render a program, and reads each back to the program it renders.

use crate::ast::{
    lemma_expr_nonempty, statements_model, AbstractSyntaxTree, Statement, StatementView, TermView,
};
use crate::lexer::TokenView;
use crate::parser::{
    lemma_parse_block_rest_bounds, lemma_parse_expr_bounds, lemma_parse_statement_bounds,
    parse_assignment, parse_block_rest, parse_expr, parse_expr_semicolon, parse_let, parse_loop,
    parse_error_at, parse_print, parse_program, parse_statement, parse_tokens, term_at,
    token_is, ParseError, Parsed,
};
use vstd::prelude::*;

verus! {

/// The token that stands for a term.
pub open spec fn term_token(term: TermView) -> TokenView {
    match term {
        TermView::Identifier(name) => TokenView::Identifier(name),
        TermView::Number(n) => TokenView::Number(n),
    }
}

/// The tokens of an expression: its terms with `+` between them.
pub open spec fn expr_tokens(terms: Seq<TermView>) -> Seq<TokenView>
    decreases terms.len(),
{
    if terms.len() == 0 {
        Seq::empty()
    } else if terms.len() == 1 {
        seq![term_token(terms[0])]
    } else {
        seq![term_token(terms[0]), TokenView::Plus] + expr_tokens(terms.drop_first())
    }
}

/// The tokens of an expression and the semicolon that ends its statement.
pub open spec fn expr_semicolon_tokens(terms: Seq<TermView>) -> Seq<TokenView> {
    expr_tokens(terms) + seq![TokenView::Semicolon]
}

/// The tokens of a statement, as the grammar writes it.
pub open spec fn statement_tokens(statement: StatementView) -> Seq<TokenView>
    decreases statement, 0nat,
{
    match statement {
        StatementView::Let { identifier, value } => seq![
            TokenView::Let,
            TokenView::Identifier(identifier),
            TokenView::Equals,
        ] + expr_semicolon_tokens(value),
        StatementView::Assignment { identifier, value } => seq![
            TokenView::Identifier(identifier),
            TokenView::Equals,
        ] + expr_semicolon_tokens(value),
        StatementView::Loop { count, body } => seq![TokenView::Loop] + (expr_tokens(count) + (
        seq![TokenView::OpenBracket] + (block_rest_tokens(body) + seq![TokenView::Semicolon]))),
        StatementView::Print { value } => seq![TokenView::Print] + expr_semicolon_tokens(value),
    }
}

/// The tokens of a block after its opening bracket: the statements, then `}`.
pub open spec fn block_rest_tokens(body: Seq<StatementView>) -> Seq<TokenView>
    decreases body, 2nat,
{
    statements_tokens(body) + seq![TokenView::CloseBracket]
}

/// The tokens of a statement list: those of its statements, one after the other.
pub open spec fn statements_tokens(statements: Seq<StatementView>) -> Seq<TokenView>
    decreases statements, 1nat,
{
    if statements.len() == 0 {
        Seq::empty()
    } else {
        statement_tokens(statements[0]) + statements_tokens(statements.drop_first())
    }
}

/// Whether every expression of the statement has at least one term, as
/// every expression of a syntax tree has.
pub open spec fn statement_well_formed(statement: StatementView) -> bool
    decreases statement, 0nat,
{
    match statement {
        StatementView::Let { value, .. } => value.len() >= 1,
        StatementView::Assignment { value, .. } => value.len() >= 1,
        StatementView::Loop { count, body } => count.len() >= 1 && statements_well_formed(body),
        StatementView::Print { value } => value.len() >= 1,
    }
}

/// Whether every statement of the list is well formed.
pub open spec fn statements_well_formed(statements: Seq<StatementView>) -> bool
    decreases statements, 1nat,
{
    if statements.len() == 0 {
        true
    } else {
        statement_well_formed(statements[0]) && statements_well_formed(statements.drop_first())
    }
}

/// Every statement of a syntax tree is well formed.
pub proof fn lemma_statement_is_well_formed(statement: Statement)
    ensures
        statement_well_formed(statement@),
    decreases statement, 0nat,
{
    match statement {
        Statement::Let(s) => {
            lemma_expr_nonempty(s.value);
        },
        Statement::Assignment(s) => {
            lemma_expr_nonempty(s.value);
        },
        Statement::Loop(s) => {
            lemma_expr_nonempty(s.count);
            lemma_statements_are_well_formed(s.body.statements.statements@);
        },
        Statement::Print(s) => {
            lemma_expr_nonempty(s.value);
        },
    }
}

/// Every statement list of a syntax tree is well formed.
pub proof fn lemma_statements_are_well_formed(statements: Seq<Statement>)
    ensures
        statements_well_formed(statements_model(statements)),
    decreases statements, 1nat,
{
    if statements.len() > 0 {
        lemma_statement_is_well_formed(statements[0]);
        lemma_statements_are_well_formed(statements.drop_first());
        assert(statements_model(statements).drop_first() =~= statements_model(
            statements.drop_first(),
        ));
    }
}

/// A syntax tree is read back from its own tokens.
pub proof fn law_tree_is_read_back_from_its_tokens(ast: AbstractSyntaxTree)
    ensures
        parse_tokens(statements_tokens(ast@)) == Ok::<Seq<StatementView>, ParseError>(ast@),
{
    lemma_statements_are_well_formed(ast.statement_list.statements@);
    law_parse_reads_back_rendering(ast@);
}

/// Whether `part` stands in `tokens` from position `pos` on.
pub open spec fn occurs_at(tokens: Seq<TokenView>, pos: int, part: Seq<TokenView>) -> bool {
    &&& 0 <= pos
    &&& pos + part.len() <= tokens.len()
    &&& tokens.subrange(pos, pos + part.len()) == part
}

/// Two parts stand one after the other where their concatenation stands.
pub proof fn lemma_occurs_concat(
    tokens: Seq<TokenView>,
    pos: int,
    first: Seq<TokenView>,
    second: Seq<TokenView>,
)
    ensures
        occurs_at(tokens, pos, first + second) <==> occurs_at(tokens, pos, first) && occurs_at(
            tokens,
            pos + first.len(),
            second,
        ),
{
    let whole = first + second;
    if 0 <= pos && pos + whole.len() <= tokens.len() {
        let range = tokens.subrange(pos, pos + whole.len());
        if occurs_at(tokens, pos, whole) {
            assert(tokens.subrange(pos, pos + first.len()) =~= range.subrange(
                0,
                first.len() as int,
            ));
            assert(whole.subrange(0, first.len() as int) =~= first);
            assert(tokens.subrange(pos + first.len(), pos + first.len() + second.len())
                =~= range.subrange(first.len() as int, whole.len() as int));
            assert(whole.subrange(first.len() as int, whole.len() as int) =~= second);
        }
        if occurs_at(tokens, pos, first) && occurs_at(tokens, pos + first.len(), second) {
            assert(range =~= tokens.subrange(pos, pos + first.len()) + tokens.subrange(
                pos + first.len(),
                pos + first.len() + second.len(),
            ));
        }
    }
}

/// A single token stands where it is the token at that position.
pub proof fn lemma_occurs_one(tokens: Seq<TokenView>, pos: int, token: TokenView)
    ensures
        occurs_at(tokens, pos, seq![token]) <==> token_is(tokens, pos, token),
{
    if 0 <= pos < tokens.len() {
        let range = tokens.subrange(pos, pos + 1);
        assert(range[0] == tokens[pos]);
        if tokens[pos] == token {
            assert(range =~= seq![token]);
        }
    }
}

/// What the parser reads as an expression is the rendering of its value.
pub proof fn lemma_parse_expr_sound(tokens: Seq<TokenView>, pos: int)
    requires
        0 <= pos <= tokens.len(),
    ensures
        parse_expr(tokens, pos) matches Parsed::Done { value, next } ==> {
            &&& value.len() >= 1
            &&& occurs_at(tokens, pos, expr_tokens(value))
            &&& next == pos + expr_tokens(value).len()
        },
    decreases tokens.len() - pos,
{
    if let Some(term) = term_at(tokens, pos) {
        assert(term_token(term) == tokens[pos]);
        lemma_occurs_one(tokens, pos, term_token(term));
        if token_is(tokens, pos + 1, TokenView::Plus) {
            lemma_parse_expr_sound(tokens, pos + 2);
            if let Parsed::Done { value: rest, next } = parse_expr(tokens, pos + 2) {
                let value = seq![term] + rest;
                assert(value.drop_first() =~= rest);
                assert(value[0] == term);
                let head = seq![term_token(term), TokenView::Plus];
                assert(head =~= seq![term_token(term)] + seq![TokenView::Plus]);
                lemma_occurs_one(tokens, pos + 1, TokenView::Plus);
                lemma_occurs_concat(tokens, pos, seq![term_token(term)], seq![TokenView::Plus]);
                lemma_occurs_concat(tokens, pos, head, expr_tokens(rest));
            }
        } else {
            let value = seq![term];
            assert(value[0] == term);
        }
    }
}

/// The parser reads the rendering of an expression back to the expression,
/// if no `+` follows it.
pub proof fn lemma_parse_expr_complete(tokens: Seq<TokenView>, pos: int, terms: Seq<TermView>)
    requires
        terms.len() >= 1,
        occurs_at(tokens, pos, expr_tokens(terms)),
        !token_is(tokens, pos + expr_tokens(terms).len(), TokenView::Plus),
    ensures
        parse_expr(tokens, pos) == (Parsed::Done {
            value: terms,
            next: pos + expr_tokens(terms).len(),
        }),
    decreases terms.len(),
{
    let first = term_token(terms[0]);
    if terms.len() == 1 {
        lemma_occurs_one(tokens, pos, first);
        assert(term_at(tokens, pos) == Some(terms[0]));
        assert(terms =~= seq![terms[0]]);
    } else {
        let rest = terms.drop_first();
        let head = seq![first, TokenView::Plus];
        assert(head =~= seq![first] + seq![TokenView::Plus]);
        lemma_occurs_concat(tokens, pos, head, expr_tokens(rest));
        lemma_occurs_concat(tokens, pos, seq![first], seq![TokenView::Plus]);
        lemma_occurs_one(tokens, pos, first);
        lemma_occurs_one(tokens, pos + 1, TokenView::Plus);
        assert(term_at(tokens, pos) == Some(terms[0]));
        lemma_parse_expr_complete(tokens, pos + 2, rest);
        assert(terms =~= seq![terms[0]] + rest);
    }
}

/// What the parser reads as an expression with its semicolon is the
/// rendering of the expression, then `;`.
pub proof fn lemma_parse_expr_semicolon_sound(tokens: Seq<TokenView>, pos: int)
    requires
        0 <= pos <= tokens.len(),
    ensures
        parse_expr_semicolon(tokens, pos) matches Parsed::Done { value, next } ==> {
            &&& value.len() >= 1
            &&& occurs_at(tokens, pos, expr_semicolon_tokens(value))
            &&& next == pos + expr_semicolon_tokens(value).len()
        },
{
    lemma_parse_expr_sound(tokens, pos);
    if let Parsed::Done { value, next } = parse_expr(tokens, pos) {
        lemma_occurs_one(tokens, next, TokenView::Semicolon);
        lemma_occurs_concat(tokens, pos, expr_tokens(value), seq![TokenView::Semicolon]);
    }
}

/// The parser reads the rendering of an expression and `;` back to the expression.
pub proof fn lemma_parse_expr_semicolon_complete(
    tokens: Seq<TokenView>,
    pos: int,
    terms: Seq<TermView>,
)
    requires
        terms.len() >= 1,
        occurs_at(tokens, pos, expr_semicolon_tokens(terms)),
    ensures
        parse_expr_semicolon(tokens, pos) == (Parsed::Done {
            value: terms,
            next: pos + expr_semicolon_tokens(terms).len(),
        }),
{
    let end = pos + expr_tokens(terms).len();
    lemma_occurs_concat(tokens, pos, expr_tokens(terms), seq![TokenView::Semicolon]);
    lemma_occurs_one(tokens, end, TokenView::Semicolon);
    lemma_parse_expr_complete(tokens, pos, terms);
}

/// What the parser reads as a statement is the rendering of its value.
pub proof fn lemma_parse_statement_sound(tokens: Seq<TokenView>, pos: int)
    requires
        0 <= pos <= tokens.len(),
    ensures
        parse_statement(tokens, pos) matches Parsed::Done { value, next } ==> {
            &&& statement_well_formed(value)
            &&& occurs_at(tokens, pos, statement_tokens(value))
            &&& next == pos + statement_tokens(value).len()
        },
    decreases tokens.len() - pos, 2nat,
{
    if pos < tokens.len() {
        match tokens[pos] {
            TokenView::Let => {
                if let Parsed::Done { value, next } = parse_let(tokens, pos) {
                    lemma_parse_expr_semicolon_sound(tokens, pos + 3);
                    let head = seq![TokenView::Let, tokens[pos + 1], TokenView::Equals];
                    assert(tokens.subrange(pos, pos + 3) =~= head);
                    lemma_occurs_concat(
                        tokens,
                        pos,
                        head,
                        expr_semicolon_tokens(value->Let_value),
                    );
                }
            },
            TokenView::Identifier(_) => {
                if let Parsed::Done { value, next } = parse_assignment(tokens, pos) {
                    lemma_parse_expr_semicolon_sound(tokens, pos + 2);
                    let head = seq![tokens[pos], TokenView::Equals];
                    assert(tokens.subrange(pos, pos + 2) =~= head);
                    lemma_occurs_concat(
                        tokens,
                        pos,
                        head,
                        expr_semicolon_tokens(value->Assignment_value),
                    );
                }
            },
            TokenView::Loop => {
                lemma_parse_loop_sound(tokens, pos);
            },
            TokenView::Print => {
                if let Parsed::Done { value, next } = parse_print(tokens, pos) {
                    lemma_parse_expr_semicolon_sound(tokens, pos + 1);
                    lemma_occurs_one(tokens, pos, TokenView::Print);
                    lemma_occurs_concat(
                        tokens,
                        pos,
                        seq![TokenView::Print],
                        expr_semicolon_tokens(value->Print_value),
                    );
                }
            },
            _ => {},
        }
    }
}

proof fn lemma_parse_loop_sound(tokens: Seq<TokenView>, pos: int)
    requires
        0 <= pos < tokens.len(),
    ensures
        parse_loop(tokens, pos) matches Parsed::Done { value, next } ==> {
            &&& statement_well_formed(value)
            &&& occurs_at(tokens, pos, statement_tokens(value))
            &&& next == pos + statement_tokens(value).len()
        },
    decreases tokens.len() - pos, 1nat,
{
    if let Parsed::Done { value, next } = parse_loop(tokens, pos) {
        lemma_parse_expr_sound(tokens, pos + 1);
        lemma_parse_expr_bounds(tokens, pos + 1);
        let count = value->Loop_count;
        let body = value->Loop_body;
        let open = parse_expr(tokens, pos + 1)->Done_next;
        lemma_parse_block_rest_sound(tokens, open + 1);
        lemma_parse_block_rest_bounds(tokens, open + 1);
        let close = parse_block_rest(tokens, open + 1)->Done_next;
        let after_block = block_rest_tokens(body) + seq![TokenView::Semicolon];
        let from_open = seq![TokenView::OpenBracket] + after_block;
        let from_count = expr_tokens(count) + from_open;
        lemma_occurs_one(tokens, close, TokenView::Semicolon);
        lemma_occurs_concat(tokens, open + 1, block_rest_tokens(body), seq![TokenView::Semicolon]);
        lemma_occurs_one(tokens, open, TokenView::OpenBracket);
        lemma_occurs_concat(tokens, open, seq![TokenView::OpenBracket], after_block);
        lemma_occurs_concat(tokens, pos + 1, expr_tokens(count), from_open);
        lemma_occurs_one(tokens, pos, TokenView::Loop);
        lemma_occurs_concat(tokens, pos, seq![TokenView::Loop], from_count);
    }
}

/// What the parser reads as the rest of a block is the rendering of its
/// statements, then `}`.
pub proof fn lemma_parse_block_rest_sound(tokens: Seq<TokenView>, pos: int)
    requires
        0 <= pos <= tokens.len(),
    ensures
        parse_block_rest(tokens, pos) matches Parsed::Done { value, next } ==> {
            &&& statements_well_formed(value)
            &&& occurs_at(tokens, pos, block_rest_tokens(value))
            &&& next == pos + block_rest_tokens(value).len()
        },
    decreases tokens.len() - pos, 3nat,
{
    let close = seq![TokenView::CloseBracket];
    if token_is(tokens, pos, TokenView::CloseBracket) {
        lemma_occurs_one(tokens, pos, TokenView::CloseBracket);
        let none = Seq::<StatementView>::empty();
        assert(statements_tokens(none) + close =~= close);
    } else if let Parsed::Done { value, next } = parse_block_rest(tokens, pos) {
        lemma_parse_statement_sound(tokens, pos);
        lemma_parse_statement_bounds(tokens, pos);
        let first = parse_statement(tokens, pos)->Done_value;
        let mid = parse_statement(tokens, pos)->Done_next;
        lemma_parse_block_rest_sound(tokens, mid);
        let rest = parse_block_rest(tokens, mid)->Done_value;
        assert(value == seq![first] + rest);
        assert(value[0] == first);
        assert(value.drop_first() =~= rest);
        lemma_occurs_concat(tokens, pos, statement_tokens(first), block_rest_tokens(rest));
        assert(statement_tokens(first) + (statements_tokens(rest) + close) =~= (statement_tokens(
            first,
        ) + statements_tokens(rest)) + close);
    }
}

/// What the parser reads as a program is the rendering of its value, to
/// the end of the tokens.
pub proof fn lemma_parse_program_sound(tokens: Seq<TokenView>, pos: int)
    requires
        0 <= pos <= tokens.len(),
    ensures
        parse_program(tokens, pos) matches Parsed::Done { value, next } ==> {
            &&& statements_well_formed(value)
            &&& occurs_at(tokens, pos, statements_tokens(value))
            &&& pos + statements_tokens(value).len() == tokens.len()
        },
    decreases tokens.len() - pos,
{
    if pos >= tokens.len() {
        assert(tokens.subrange(pos, pos) =~= Seq::<TokenView>::empty());
    } else if let Parsed::Done { value, next } = parse_program(tokens, pos) {
        lemma_parse_statement_sound(tokens, pos);
        lemma_parse_statement_bounds(tokens, pos);
        let first = parse_statement(tokens, pos)->Done_value;
        let mid = parse_statement(tokens, pos)->Done_next;
        lemma_parse_program_sound(tokens, mid);
        let rest = parse_program(tokens, mid)->Done_value;
        assert(value == seq![first] + rest);
        assert(value[0] == first);
        assert(value.drop_first() =~= rest);
        lemma_occurs_concat(tokens, pos, statement_tokens(first), statements_tokens(rest));
    }
}

/// A statement renders to at least one token, and never starts with `}`.
pub proof fn lemma_statement_tokens_start(statement: StatementView)
    ensures
        statement_tokens(statement).len() >= 1,
        statement_tokens(statement)[0] == match statement {
            StatementView::Let { .. } => TokenView::Let,
            StatementView::Assignment { identifier, .. } => TokenView::Identifier(identifier),
            StatementView::Loop { .. } => TokenView::Loop,
            StatementView::Print { .. } => TokenView::Print,
        },
{
}

/// The parser reads the rendering of a statement back to the statement.
pub proof fn lemma_parse_statement_complete(
    tokens: Seq<TokenView>,
    pos: int,
    statement: StatementView,
)
    requires
        statement_well_formed(statement),
        occurs_at(tokens, pos, statement_tokens(statement)),
    ensures
        parse_statement(tokens, pos) == (Parsed::Done {
            value: statement,
            next: pos + statement_tokens(statement).len(),
        }),
    decreases statement, 0nat,
{
    lemma_statement_tokens_start(statement);
    let rendered = statement_tokens(statement);
    assert(tokens[pos] == tokens.subrange(pos, pos + rendered.len())[0]);
    match statement {
        StatementView::Let { identifier, value } => {
            let head = seq![TokenView::Let, TokenView::Identifier(identifier), TokenView::Equals];
            lemma_occurs_concat(tokens, pos, head, expr_semicolon_tokens(value));
            let range = tokens.subrange(pos, pos + 3);
            assert(range[0] == tokens[pos] && range[1] == tokens[pos + 1] && range[2]
                == tokens[pos + 2]);
            lemma_parse_expr_semicolon_complete(tokens, pos + 3, value);
        },
        StatementView::Assignment { identifier, value } => {
            let head = seq![TokenView::Identifier(identifier), TokenView::Equals];
            lemma_occurs_concat(tokens, pos, head, expr_semicolon_tokens(value));
            let range = tokens.subrange(pos, pos + 2);
            assert(range[0] == tokens[pos] && range[1] == tokens[pos + 1]);
            lemma_parse_expr_semicolon_complete(tokens, pos + 2, value);
        },
        StatementView::Loop { count, body } => {
            let after_block = block_rest_tokens(body) + seq![TokenView::Semicolon];
            let from_open = seq![TokenView::OpenBracket] + after_block;
            let from_count = expr_tokens(count) + from_open;
            let open = pos + 1 + expr_tokens(count).len();
            let close = open + 1 + block_rest_tokens(body).len();
            lemma_occurs_concat(tokens, pos, seq![TokenView::Loop], from_count);
            lemma_occurs_one(tokens, pos, TokenView::Loop);
            lemma_occurs_concat(tokens, pos + 1, expr_tokens(count), from_open);
            lemma_occurs_concat(tokens, open, seq![TokenView::OpenBracket], after_block);
            lemma_occurs_one(tokens, open, TokenView::OpenBracket);
            lemma_occurs_concat(
                tokens,
                open + 1,
                block_rest_tokens(body),
                seq![TokenView::Semicolon],
            );
            lemma_occurs_one(tokens, close, TokenView::Semicolon);
            lemma_parse_expr_complete(tokens, pos + 1, count);
            lemma_parse_block_rest_complete(tokens, open + 1, body);
        },
        StatementView::Print { value } => {
            lemma_occurs_concat(tokens, pos, seq![TokenView::Print], expr_semicolon_tokens(value));
            lemma_occurs_one(tokens, pos, TokenView::Print);
            lemma_parse_expr_semicolon_complete(tokens, pos + 1, value);
        },
    }
}

/// The parser reads the rendering of a block's statements and `}` back to
/// the statements.
pub proof fn lemma_parse_block_rest_complete(
    tokens: Seq<TokenView>,
    pos: int,
    body: Seq<StatementView>,
)
    requires
        statements_well_formed(body),
        occurs_at(tokens, pos, block_rest_tokens(body)),
    ensures
        parse_block_rest(tokens, pos) == (Parsed::Done {
            value: body,
            next: pos + block_rest_tokens(body).len(),
        }),
    decreases body, 1nat,
{
    let close = seq![TokenView::CloseBracket];
    if body.len() == 0 {
        assert(statements_tokens(body) + close =~= close);
        lemma_occurs_one(tokens, pos, TokenView::CloseBracket);
        assert(body =~= Seq::<StatementView>::empty());
    } else {
        let first = body[0];
        let rest = body.drop_first();
        assert(statement_tokens(first) + (statements_tokens(rest) + close) =~= (statement_tokens(
            first,
        ) + statements_tokens(rest)) + close);
        lemma_occurs_concat(tokens, pos, statement_tokens(first), block_rest_tokens(rest));
        lemma_statement_tokens_start(first);
        assert(tokens[pos] == tokens.subrange(pos, pos + statement_tokens(first).len())[0]);
        lemma_parse_statement_complete(tokens, pos, first);
        lemma_parse_block_rest_complete(tokens, pos + statement_tokens(first).len(), rest);
        assert(body =~= seq![first] + rest);
    }
}

/// The parser reads the rendering of a program, to the end of the tokens,
/// back to the program.
pub proof fn lemma_parse_program_complete(
    tokens: Seq<TokenView>,
    pos: int,
    program: Seq<StatementView>,
)
    requires
        statements_well_formed(program),
        occurs_at(tokens, pos, statements_tokens(program)),
        pos + statements_tokens(program).len() == tokens.len(),
    ensures
        parse_program(tokens, pos) == (Parsed::Done { value: program, next: tokens.len() as int }),
    decreases program, 1nat,
{
    if program.len() == 0 {
        assert(program =~= Seq::<StatementView>::empty());
    } else {
        let first = program[0];
        let rest = program.drop_first();
        lemma_occurs_concat(tokens, pos, statement_tokens(first), statements_tokens(rest));
        lemma_statement_tokens_start(first);
        lemma_parse_statement_complete(tokens, pos, first);
        lemma_parse_program_complete(tokens, pos + statement_tokens(first).len(), rest);
        assert(program =~= seq![first] + rest);
    }
}

/// The value of a statement needs its semicolon: where an expression
/// stands and no `+` follows it, the expression with its semicolon is read
/// if `;` is the next token, and else reading fails at that token, or at
/// the end of the tokens if there is none.
pub proof fn law_value_needs_its_semicolon(tokens: Seq<TokenView>, pos: int, value: Seq<TermView>)
    requires
        value.len() >= 1,
        occurs_at(tokens, pos, expr_tokens(value)),
        !token_is(tokens, pos + expr_tokens(value).len(), TokenView::Plus),
    ensures
        ({
            let end = pos + expr_tokens(value).len();
            parse_expr_semicolon(tokens, pos) == if token_is(tokens, end, TokenView::Semicolon) {
                Parsed::Done { value, next: end + 1 }
            } else {
                Parsed::Failed { at: end }
            }
        }),
{
    lemma_parse_expr_complete(tokens, pos, value);
}

/// A `let` needs its semicolon: where `let name = value` stands and no `+`
/// follows it, the statement is read if `;` is the next token. Else the
/// statement, and with it the program, fails at that token, or at the end
/// of the tokens if there is none; no tree is built.
pub proof fn law_let_needs_its_semicolon(
    tokens: Seq<TokenView>,
    pos: int,
    name: Seq<char>,
    value: Seq<TermView>,
)
    requires
        value.len() >= 1,
        occurs_at(
            tokens,
            pos,
            seq![TokenView::Let, TokenView::Identifier(name), TokenView::Equals] + expr_tokens(
                value,
            ),
        ),
        !token_is(tokens, pos + 3 + expr_tokens(value).len(), TokenView::Plus),
    ensures
        ({
            let end = pos + 3 + expr_tokens(value).len();
            let statement = StatementView::Let { identifier: name, value };
            if token_is(tokens, end, TokenView::Semicolon) {
                parse_statement(tokens, pos) == (Parsed::Done { value: statement, next: end + 1 })
            } else {
                &&& parse_statement(tokens, pos) == Parsed::<StatementView>::Failed { at: end }
                &&& parse_program(tokens, pos) == Parsed::<Seq<StatementView>>::Failed { at: end }
                &&& pos == 0 ==> parse_tokens(tokens) == Err::<Seq<StatementView>, ParseError>(
                    parse_error_at(tokens, end),
                )
            }
        }),
{
    let head = seq![TokenView::Let, TokenView::Identifier(name), TokenView::Equals];
    lemma_occurs_concat(tokens, pos, head, expr_tokens(value));
    let range = tokens.subrange(pos, pos + 3);
    assert(range[0] == tokens[pos] && range[1] == tokens[pos + 1] && range[2] == tokens[pos + 2]);
    law_value_needs_its_semicolon(tokens, pos + 3, value);
}

/// The parser reads every program back from its tokens: rendering a well
/// formed program and parsing the tokens gives the program.
pub proof fn law_parse_reads_back_rendering(program: Seq<StatementView>)
    requires
        statements_well_formed(program),
    ensures
        parse_tokens(statements_tokens(program)) == Ok::<Seq<StatementView>, ParseError>(program),
{
    let tokens = statements_tokens(program);
    assert(tokens.subrange(0, tokens.len() as int) =~= tokens);
    lemma_parse_program_complete(tokens, 0, program);
}

/// The parser accepts nothing but renderings: the program that it reads
/// from a token sequence is well formed and renders to that sequence.
pub proof fn law_parsed_program_renders_to_tokens(tokens: Seq<TokenView>)
    ensures
        parse_tokens(tokens) matches Ok(program) ==> statements_well_formed(program)
            && statements_tokens(program) == tokens,
{
    lemma_parse_program_sound(tokens, 0);
    if let Ok(program) = parse_tokens(tokens) {
        assert(tokens.subrange(0, tokens.len() as int) =~= tokens);
    }
}

/// The parser rejects a token sequence only if no well formed program
/// renders to it.
pub proof fn law_rejected_tokens_render_no_program(
    tokens: Seq<TokenView>,
    program: Seq<StatementView>,
)
    requires
        parse_tokens(tokens) is Err,
        statements_well_formed(program),
    ensures
        statements_tokens(program) != tokens,
{
    law_parse_reads_back_rendering(program);
}

} // verus!

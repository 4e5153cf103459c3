//! What the generator writes for an expression, the lexer and the parser
//! read back: the text of an expression lexes to the expression's tokens,
//! and they parse to the expression.

use crate::ast::TermView;
use crate::code_generator::{expr_text, law_decimal_digits_denote_the_number, term_text};
use crate::grammar::{expr_tokens, lemma_parse_expr_complete, occurs_at, term_token};
use crate::lexer::{
    is_alphabetic_char, is_alphanumeric_char, is_whitespace_char, lemma_run_end_unique, lex,
    lex_from, lex_step, run_end, word_token, CharClass, LexError, LexStep, TokenView,
};
use crate::parser::{parse_expr, Parsed};
use vstd::prelude::*;

verus! {

/// Whether the lexer reads `name` as one identifier: a letter that is no
/// whitespace, then letters and numeric characters, and no keyword.
pub open spec fn is_word(name: Seq<char>) -> bool {
    &&& name.len() >= 1
    &&& is_alphabetic_char(name[0])
    &&& !is_whitespace_char(name[0])
    &&& forall|i: int| 1 <= i < name.len() ==> is_alphanumeric_char(#[trigger] name[i])
    &&& word_token(name) == TokenView::Identifier(name)
}

/// Whether a term can come from a source text: a word, or a number that is
/// not negative.
pub open spec fn term_is_writable(term: TermView) -> bool {
    match term {
        TermView::Identifier(name) => is_word(name),
        TermView::Number(n) => n >= 0,
    }
}

/// Whether every term of an expression can come from a source text.
pub open spec fn terms_are_writable(terms: Seq<TermView>) -> bool {
    forall|i: int| 0 <= i < terms.len() ==> term_is_writable(#[trigger] terms[i])
}

/// The text of a writable term, where a blank or the end of the text
/// follows it, is read as the term's token.
pub proof fn lemma_term_text_is_lexed(text: Seq<char>, pos: int, term: TermView)
    requires
        term_is_writable(term),
        0 <= pos,
        pos + term_text(term).len() <= text.len(),
        text.subrange(pos, pos + term_text(term).len()) == term_text(term),
        pos + term_text(term).len() == text.len() || text[pos + term_text(term).len()] == ' ',
    ensures
        term_text(term).len() >= 1,
        lex_step(text, pos) == (LexStep::Token {
            token: term_token(term),
            next: pos + term_text(term).len(),
        }),
{
    let written = term_text(term);
    let end = pos + written.len();
    let range = text.subrange(pos, end);
    match term {
        TermView::Identifier(name) => {
            assert(text[pos] == range[0]);
            assert forall|i: int| pos + 1 <= i < end implies CharClass::Alphanumeric.contains(
                #[trigger] text[i],
            ) by {
                assert(text[i] == range[i - pos]);
                assert(is_alphanumeric_char(name[i - pos]));
            }
            lemma_run_end_unique(text, pos + 1, end, CharClass::Alphanumeric);
        },
        TermView::Number(n) => {
            law_decimal_digits_denote_the_number(n as nat);
            assert(text[pos] == range[0]);
            assert forall|i: int| pos + 1 <= i < end implies CharClass::Digit.contains(
                #[trigger] text[i],
            ) by {
                assert(text[i] == range[i - pos]);
            }
            lemma_run_end_unique(text, pos + 1, end, CharClass::Digit);
        },
    }
}

/// A blank before a token changes nothing of what is read.
pub proof fn lemma_leading_blank_is_skipped(text: Seq<char>, pos: int)
    requires
        0 <= pos < text.len(),
        text[pos] == ' ',
    ensures
        lex_from(text, pos) == lex_from(text, pos + 1),
{
    assert(run_end(text, pos, CharClass::Whitespace) == run_end(
        text,
        pos + 1,
        CharClass::Whitespace,
    ));
    assert(lex_step(text, pos) == lex_step(text, pos + 1));
}

/// The text of a writable expression, to the end of the text, is read as
/// the expression's tokens.
pub proof fn lemma_expr_text_is_lexed(text: Seq<char>, pos: int, terms: Seq<TermView>)
    requires
        terms.len() >= 1,
        terms_are_writable(terms),
        0 <= pos <= text.len(),
        text.subrange(pos, text.len() as int) == expr_text(terms),
    ensures
        lex_from(text, pos) == Ok::<Seq<TokenView>, LexError>(expr_tokens(terms)),
    decreases terms.len(),
{
    let tail = text.subrange(pos, text.len() as int);
    let first = terms[0];
    let written = term_text(first);
    let end = pos + written.len();
    assert(term_is_writable(first));
    if terms.len() == 1 {
        assert(text.subrange(pos, end) =~= written);
        lemma_term_text_is_lexed(text, pos, first);
        assert(lex_step(text, end) == LexStep::End);
        assert(lex_from(text, end) == Ok::<Seq<TokenView>, LexError>(Seq::empty()));
        assert(seq![term_token(first)] + Seq::<TokenView>::empty() =~= expr_tokens(terms));
    } else {
        let rest = terms.drop_first();
        let rest_text = expr_text(rest);
        reveal_strlit(" + ");
        let separator = " + "@;
        assert(tail == written + separator + rest_text);
        assert(text.subrange(pos, end) =~= written) by {
            assert(text.subrange(pos, end) =~= tail.subrange(0, written.len() as int));
        }
        assert(text[end] == ' ' && text[end + 1] == '+' && text[end + 2] == ' ') by {
            assert(text[end] == tail[end - pos]);
            assert(text[end + 1] == tail[end + 1 - pos]);
            assert(text[end + 2] == tail[end + 2 - pos]);
            assert(tail[end - pos] == separator[0]);
            assert(tail[end + 1 - pos] == separator[1]);
            assert(tail[end + 2 - pos] == separator[2]);
        }
        assert(text.subrange(end + 3, text.len() as int) =~= rest_text) by {
            assert(text.subrange(end + 3, text.len() as int) =~= tail.subrange(
                end + 3 - pos,
                tail.len() as int,
            ));
        }
        lemma_term_text_is_lexed(text, pos, first);
        // The blank, the plus sign, and the blank after it.
        assert(run_end(text, end + 1, CharClass::Whitespace) == end + 1);
        assert(run_end(text, end, CharClass::Whitespace) == end + 1);
        assert(lex_step(text, end) == (LexStep::Token { token: TokenView::Plus, next: end + 2 }));
        lemma_leading_blank_is_skipped(text, end + 2);
        assert(terms_are_writable(rest)) by {
            assert forall|i: int| 0 <= i < rest.len() implies term_is_writable(
                #[trigger] rest[i],
            ) by {
                assert(rest[i] == terms[i + 1]);
            }
        }
        lemma_expr_text_is_lexed(text, end + 3, rest);
        assert(lex_from(text, end) == Ok::<Seq<TokenView>, LexError>(
            seq![TokenView::Plus] + expr_tokens(rest),
        ));
        assert(seq![term_token(first)] + (seq![TokenView::Plus] + expr_tokens(rest))
            =~= expr_tokens(terms));
    }
}

/// Printing an expression and reading it back gives the expression: the
/// text that the generator writes for a writable expression lexes to the
/// expression's tokens, and the tokens parse to the expression.
pub proof fn law_expression_text_is_read_back(terms: Seq<TermView>)
    requires
        terms.len() >= 1,
        terms_are_writable(terms),
    ensures
        lex(expr_text(terms)) == Ok::<Seq<TokenView>, LexError>(expr_tokens(terms)),
        parse_expr(expr_tokens(terms), 0) == (Parsed::Done {
            value: terms,
            next: expr_tokens(terms).len() as int,
        }),
{
    let text = expr_text(terms);
    assert(text.subrange(0, text.len() as int) =~= text);
    lemma_expr_text_is_lexed(text, 0, terms);
    let tokens = expr_tokens(terms);
    assert(tokens.subrange(0, tokens.len() as int) =~= tokens);
    assert(occurs_at(tokens, 0, tokens));
    lemma_parse_expr_complete(tokens, 0, terms);
}

} // verus!

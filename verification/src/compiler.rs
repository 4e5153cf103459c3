//! The whole pipeline: source text to C source text.
//!
//! The stages run one after the other, each on the result of the one before.
//! The first lexical or syntax error ends the run; semantic errors are
//! collected, and any of them withholds the generated code.

use crate::code_generator::{generate_c_code, program_text};
use crate::lexer::{lex, LexError, Lexer};
use crate::parser::{parse_tokens, ParseError, Parser};
use crate::semantic_analyzer::{
    errors_view, program_errors, SemanticAnalyzer, SemanticError, SemanticErrorView,
};
use vstd::prelude::*;

verus! {

/// Why a source text was not compiled.
#[derive(Debug, Clone, PartialEq, Eq)]
pub enum CompileError {
    /// The text is not a sequence of tokens.
    Lexical(LexError),
    /// The tokens are not a program.
    Syntax(ParseError),
    /// The program uses undeclared variables: every such use, in textual order.
    Semantic(Vec<SemanticError>),
}

/// Mathematical value of a [`CompileError`].
pub enum CompileErrorView {
    Lexical(LexError),
    Syntax(ParseError),
    Semantic(Seq<SemanticErrorView>),
}

impl View for CompileError {
    type V = CompileErrorView;

    open spec fn view(&self) -> CompileErrorView {
        match self {
            CompileError::Lexical(e) => CompileErrorView::Lexical(*e),
            CompileError::Syntax(e) => CompileErrorView::Syntax(*e),
            CompileError::Semantic(errors) => CompileErrorView::Semantic(errors_view(errors@)),
        }
    }
}

/// What compiling `source` gives: a function of the text alone.
pub open spec fn compile_text(source: Seq<char>) -> Result<Seq<char>, CompileErrorView> {
    match lex(source) {
        Err(e) => Err(CompileErrorView::Lexical(e)),
        Ok(tokens) => match parse_tokens(tokens) {
            Err(e) => Err(CompileErrorView::Syntax(e)),
            Ok(program) => if program_errors(program).len() == 0 {
                Ok(program_text(program))
            } else {
                Err(CompileErrorView::Semantic(program_errors(program)))
            },
        },
    }
}

/// Whether `result` is what compiling `source` gives.
pub open spec fn is_outcome_of(result: Result<String, CompileError>, source: Seq<char>) -> bool {
    match compile_text(source) {
        Ok(text) => result matches Ok(code) && code@ == text,
        Err(e) => result matches Err(error) && error@ == e,
    }
}

/// Compiles a source text to C source text.
///
/// The first lexical or syntax error ends the run. Semantic errors are all
/// returned, and no code is generated if there is one.
pub fn compile(source: &str) -> (result: Result<String, CompileError>)
    ensures
        is_outcome_of(result, source@),
{
    let lexer = Lexer::new(source.to_owned());
    let tokens = match lexer.tokenize() {
        Ok(tokens) => tokens,
        Err(e) => {
            return Err(CompileError::Lexical(e));
        },
    };
    let mut parser = Parser::new(tokens);
    let ast = match parser.parse() {
        Ok(ast) => ast,
        Err(e) => {
            return Err(CompileError::Syntax(e));
        },
    };
    match SemanticAnalyzer::analyze(&ast) {
        Ok(_) => Ok(generate_c_code(&ast)),
        Err(errors) => Err(CompileError::Semantic(errors)),
    }
}

/// Compiling is deterministic: two outcomes for the same source text are
/// the same code, character for character, or the same error.
pub proof fn law_compile_is_deterministic(
    source: Seq<char>,
    first: Result<String, CompileError>,
    second: Result<String, CompileError>,
)
    requires
        is_outcome_of(first, source),
        is_outcome_of(second, source),
    ensures
        match first {
            Ok(code) => second matches Ok(other) && other@ == code@,
            Err(error) => second matches Err(other) && other@ == error@,
        },
{
}

} // verus!

//! A compiler from a small imperative language to C.
//!
//! The language has `let`, assignment, counting loops, sums and `print`.
//! A source text goes through four stages: [`lexer`] (text to tokens),
//! [`parser`] (tokens to a syntax tree), [`semantic_analyzer`] (every
//! variable is declared before use) and [`code_generator`] (tree to C
//! text). [`compiler`] runs them in a row; [`grammar`] states the grammar
//! that the parser reads, and [`readback`] that the text of a generated
//! expression is read back to the expression.

pub mod ast;
pub mod code_generator;
pub mod compiler;
pub mod grammar;
pub mod lexer;
pub mod parser;
pub mod readback;
pub mod semantic_analyzer;

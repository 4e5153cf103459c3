use hand_compiler::compiler::{compile, CompileError};
use hand_compiler::lexer::LexError;
use hand_compiler::parser::ParseError;
use hand_compiler::semantic_analyzer::SemanticError;

fn undeclared(names: &[&str]) -> CompileError {
    CompileError::Semantic(
        names.iter().map(|name| SemanticError::UndeclaredVariable(name.to_string())).collect(),
    )
}

#[test]
fn compiles_declaration_and_print() {
    assert_eq!(
        compile("let x = 5; print x;"),
        Ok("#include <stdio.h>\nint main() {\nint x = 5;\nprintf(\"%d\\n\", x);\nreturn 0;\n}\n"
            .to_string())
    );
}

#[test]
fn equal_texts_give_equal_code() {
    let source = "let x = 1 + 2 + 3; loop x { print x; };";
    let first = compile(source);
    let second = compile(&source.to_string());
    assert!(first.is_ok());
    assert_eq!(first, second);
}

#[test]
fn layout_of_the_source_does_not_matter() {
    assert_eq!(compile("let x=5;print x;"), compile("  let   x =\n5 ;\n\tprint x ;\n"));
}

#[test]
fn an_undeclared_variable_withholds_the_code() {
    assert_eq!(compile("print x;"), Err(undeclared(&["x"])));
}

#[test]
fn a_name_of_a_loop_body_is_gone_after_the_loop() {
    assert_eq!(compile("loop 5 { let x = 10; }; print x;"), Err(undeclared(&["x"])));
}

#[test]
fn all_semantic_errors_are_returned() {
    assert_eq!(compile("a = b; print c + a;"), Err(undeclared(&["a", "b", "c", "a"])));
}

#[test]
fn a_syntax_error_comes_before_any_semantic_error() {
    // `y` is undeclared, but the missing semicolon ends the run first.
    assert_eq!(
        compile("let x = y print x;"),
        Err(CompileError::Syntax(ParseError::UnexpectedToken { position: 4 }))
    );
    assert_eq!(compile("print y"), Err(CompileError::Syntax(ParseError::UnexpectedEnd)));
}

#[test]
fn a_lexical_error_comes_before_any_syntax_error() {
    assert_eq!(
        compile("let let = @;"),
        Err(CompileError::Lexical(LexError::UnexpectedCharacter { position: 10, character: '@' }))
    );
    assert_eq!(
        compile("print 4294967296;"),
        Err(CompileError::Lexical(LexError::NumberTooLarge { position: 6 }))
    );
}

#[test]
fn a_generated_expression_is_read_back() {
    // `int x = a1 + 20 + b;` holds the expression as the generator writes
    // it; compiling a print of that text gives the same expression again.
    let first = compile("let a1 = 1; let b = 2; let x = a1   +20+ b;").unwrap();
    let written = first.lines().find(|line| line.starts_with("int x = ")).unwrap();
    let expression = written.strip_prefix("int x = ").unwrap().strip_suffix(';').unwrap();
    assert_eq!(expression, "a1 + 20 + b");
    let second =
        compile(&format!("let a1 = 1; let b = 2; let x = {};", expression)).unwrap();
    assert_eq!(first, second);
}

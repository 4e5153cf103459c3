use hand_compiler::ast::{
    AbstractSyntaxTree, Expr, LetStatement, PrintStatement, Statement, StatementList, Term,
};
use hand_compiler::code_generator::generate_c_code;
use hand_compiler::lexer::{Lexer, Token};
use hand_compiler::parser::Parser;
use hand_compiler::semantic_analyzer::SemanticAnalyzer;

fn compile_source_to_c(source: &str) -> String {
    let lexer = Lexer::new(source.to_string());
    let tokens: Vec<_> = lexer.tokenize().unwrap();
    let mut parser = Parser::new(tokens);
    let ast = parser.parse().unwrap();
    SemanticAnalyzer::analyze(&ast).unwrap();
    generate_c_code(&ast)
}

fn body_of(source: &str) -> String {
    let code = compile_source_to_c(source);
    let code = code.strip_prefix("#include <stdio.h>\nint main() {\n").unwrap();
    code.strip_suffix("return 0;\n}\n").unwrap().to_string()
}

fn program_of(statements: Vec<Statement>) -> AbstractSyntaxTree {
    AbstractSyntaxTree { statement_list: StatementList { statements } }
}

fn number(n: i32) -> Expr {
    Expr { lhs: Term::Number(n), rhs: None }
}

#[test]
fn test_basic_variables_and_print() {
    assert_eq!(
        compile_source_to_c("let x = 5; print x;"),
        "#include <stdio.h>\nint main() {\nint x = 5;\nprintf(\"%d\\n\", x);\nreturn 0;\n}\n"
    );
}

#[test]
fn test_arithmetic_and_loops() {
    assert_eq!(
        compile_source_to_c("let x = 1; let y = 2; print x;"),
        "#include <stdio.h>\nint main() {\nint x = 1;\nint y = 2;\nprintf(\"%d\\n\", x);\nreturn 0;\n}\n"
    );
}

#[test]
fn the_empty_program_is_an_empty_main() {
    assert_eq!(compile_source_to_c(""), "#include <stdio.h>\nint main() {\nreturn 0;\n}\n");
}

#[test]
fn a_sum_is_joined_by_plus_signs() {
    assert_eq!(body_of("let x = 1 + 2 + 3;"), "int x = 1 + 2 + 3;\n");
}

#[test]
fn an_assignment_has_no_type() {
    assert_eq!(body_of("let x = 1; x = x + 41;"), "int x = 1;\nx = x + 41;\n");
}

#[test]
fn a_loop_is_a_counting_for() {
    assert_eq!(
        body_of("let x = 0; loop 3 { x = x + 1; print x; };"),
        "int x = 0;\nfor (int _ = 0; _ < 3; _++) {\nx = x + 1;\nprintf(\"%d\\n\", x);\n}\n"
    );
}

#[test]
fn a_loop_bound_is_written_into_the_condition_as_it_stands() {
    // The bound names a variable that the body changes: the text of the
    // bound is the loop's condition, nothing is stored before the loop.
    assert_eq!(
        body_of("let n = 4; loop n + 1 { n = n + 1; };"),
        "int n = 4;\nfor (int _ = 0; _ < n + 1; _++) {\nn = n + 1;\n}\n"
    );
}

#[test]
fn nested_loops_nest_their_blocks() {
    assert_eq!(
        body_of("loop 2 { loop 3 { print 1; }; };"),
        "for (int _ = 0; _ < 2; _++) {\nfor (int _ = 0; _ < 3; _++) {\nprintf(\"%d\\n\", 1);\n}\n}\n"
    );
}

#[test]
fn an_empty_block_is_kept() {
    assert_eq!(body_of("loop 7 { };"), "for (int _ = 0; _ < 7; _++) {\n}\n");
}

#[test]
fn names_are_written_unchecked() {
    assert_eq!(body_of("let int = 1; print int;"), "int int = 1;\nprintf(\"%d\\n\", int);\n");
}

#[test]
fn numbers_are_written_in_decimal() {
    assert_eq!(body_of("print 0;"), "printf(\"%d\\n\", 0);\n");
    assert_eq!(body_of("print 007;"), "printf(\"%d\\n\", 7);\n");
    assert_eq!(body_of("print 10;"), "printf(\"%d\\n\", 10);\n");
    assert_eq!(body_of("print 1234567890;"), "printf(\"%d\\n\", 1234567890);\n");
    assert_eq!(body_of("print 2147483647;"), "printf(\"%d\\n\", 2147483647);\n");
}

#[test]
fn negative_numbers_of_a_built_tree_are_written_with_a_sign() {
    let ast = program_of(vec![
        Statement::Print(PrintStatement { value: number(-1) }),
        Statement::Print(PrintStatement { value: number(-120) }),
        Statement::Print(PrintStatement { value: number(i32::MIN) }),
    ]);
    assert_eq!(
        generate_c_code(&ast),
        "#include <stdio.h>\nint main() {\nprintf(\"%d\\n\", -1);\nprintf(\"%d\\n\", -120);\nprintf(\"%d\\n\", -2147483648);\nreturn 0;\n}\n"
    );
}

#[test]
fn the_generator_does_not_validate() {
    // `y` is never declared; the generator writes it all the same.
    let ast = program_of(vec![Statement::Let(LetStatement {
        identifier: "x".to_string(),
        value: Expr { lhs: Term::Identifier("y".to_string()), rhs: Some(Box::new(number(2))) },
    })]);
    assert_eq!(
        generate_c_code(&ast),
        "#include <stdio.h>\nint main() {\nint x = y + 2;\nreturn 0;\n}\n"
    );
}

#[test]
fn generation_is_repeatable() {
    let source = "let a = 1; loop a + 2 { let b = a; print b + a; }; print a;";
    assert_eq!(compile_source_to_c(source), compile_source_to_c(source));
}

#[test]
fn generated_numbers_are_read_back_by_the_lexer() {
    for n in [0, 1, 9, 10, 99, 100, 4711, 1_000_000, i32::MAX] {
        let ast = program_of(vec![Statement::Print(PrintStatement { value: number(n) })]);
        let code = generate_c_code(&ast);
        let digits = code
            .strip_prefix("#include <stdio.h>\nint main() {\nprintf(\"%d\\n\", ")
            .unwrap()
            .strip_suffix(");\nreturn 0;\n}\n")
            .unwrap();
        assert_eq!(digits, n.to_string());
        assert_eq!(Lexer::new(digits.to_string()).tokenize(), Ok(vec![Token::Number(n)]));
    }
}

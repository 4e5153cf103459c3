use hand_compiler::ast::AbstractSyntaxTree;
use hand_compiler::lexer::Lexer;
use hand_compiler::parser::Parser;
use hand_compiler::semantic_analyzer::{ScopeStack, SemanticAnalyzer, SemanticError};

fn tree_of(input: &str) -> AbstractSyntaxTree {
    let tokens = Lexer::new(input.to_string()).tokenize().unwrap();
    Parser::new(tokens).parse().unwrap()
}

fn undeclared_in(input: &str) -> Vec<String> {
    match SemanticAnalyzer::analyze(&tree_of(input)) {
        Ok(()) => vec![],
        Err(errors) => errors
            .into_iter()
            .map(|error| match error {
                SemanticError::UndeclaredVariable(name) => name,
            })
            .collect(),
    }
}

#[test]
fn semantic_analyzer_test_valid_program() {
    let input = "let x = 5; print x;";
    let lexer = Lexer::new(input.to_string());
    let tokens: Vec<_> = lexer.tokenize().unwrap();
    let mut parser = Parser::new(tokens);
    let ast = parser.parse().unwrap();

    let result = SemanticAnalyzer::analyze(&ast);

    assert!(result.is_ok());
}

#[test]
fn test_undeclared_variable() {
    let input = "print x;";
    let lexer = Lexer::new(input.to_string());
    let tokens: Vec<_> = lexer.tokenize().unwrap();
    let mut parser = Parser::new(tokens);
    let ast = parser.parse().unwrap();

    let result = SemanticAnalyzer::analyze(&ast);

    assert!(result.is_err());
    let errors = result.unwrap_err();
    assert_eq!(errors.len(), 1);
    match &errors[0] {
        SemanticError::UndeclaredVariable(name) => assert_eq!(name, "x"),
    }
}

#[test]
fn test_undeclared_assignment() {
    let input = "x = 5;";
    let lexer = Lexer::new(input.to_string());
    let tokens: Vec<_> = lexer.tokenize().unwrap();
    let mut parser = Parser::new(tokens);
    let ast = parser.parse().unwrap();

    let result = SemanticAnalyzer::analyze(&ast);

    assert!(result.is_err());
    let errors = result.unwrap_err();
    assert_eq!(errors.len(), 1);
    match &errors[0] {
        SemanticError::UndeclaredVariable(name) => assert_eq!(name, "x"),
    }
}

#[test]
fn test_loop_scope_violation() {
    let input = "loop 5 { let x = 10; }; print x;";
    let lexer = Lexer::new(input.to_string());
    let tokens: Vec<_> = lexer.tokenize().unwrap();
    let mut parser = Parser::new(tokens);
    let ast = parser.parse().unwrap();

    let result = SemanticAnalyzer::analyze(&ast);

    assert!(result.is_err());
    let errors = result.unwrap_err();
    assert_eq!(errors.len(), 1);
    match &errors[0] {
        SemanticError::UndeclaredVariable(name) => assert_eq!(name, "x"),
    }
}

#[test]
fn every_undeclared_use_is_reported_in_order() {
    assert_eq!(undeclared_in("a = b + c; print a + 1 + d;"), vec!["a", "b", "c", "a", "d"]);
}

#[test]
fn the_same_name_is_reported_once_per_use() {
    assert_eq!(undeclared_in("print x + x; x = x; loop x { print x; };"), vec!["x"; 6]);
}

#[test]
fn numbers_are_never_errors() {
    assert!(undeclared_in("print 1 + 2 + 3; loop 4 { print 5; };").is_empty());
}

#[test]
fn the_empty_program_is_valid() {
    assert!(undeclared_in("").is_empty());
}

#[test]
fn a_let_may_use_its_own_name() {
    assert!(undeclared_in("let x = x + 1;").is_empty());
}

#[test]
fn use_before_declaration_is_an_error() {
    assert_eq!(undeclared_in("print x; let x = 1; print x;"), vec!["x"]);
}

#[test]
fn outer_names_are_visible_in_a_loop() {
    assert!(undeclared_in("let n = 3; let x = 0; loop n { x = x + n; };").is_empty());
}

#[test]
fn a_loop_count_is_outside_the_body_scope() {
    assert_eq!(undeclared_in("loop n { let n = 1; };"), vec!["n"]);
}

#[test]
fn shadowing_leaves_the_outer_name_declared() {
    assert!(undeclared_in("let x = 1; loop 2 { let x = 2; print x; }; print x;").is_empty());
}

#[test]
fn names_of_an_inner_loop_end_with_it() {
    assert_eq!(
        undeclared_in("loop 1 { loop 2 { let y = 1; }; print y; let z = 1; print z; }; print z;"),
        vec!["y", "z"]
    );
}

#[test]
fn scope_stack_starts_with_one_empty_scope() {
    let mut stack = ScopeStack::new();
    assert!(!stack.declared("x"));
    stack.declare("x".to_string());
    assert!(stack.declared("x"));
    assert!(!stack.declared("y"));
}

#[test]
fn scope_stack_finds_names_of_every_open_scope() {
    let mut stack = ScopeStack::new();
    stack.declare("outer".to_string());
    stack.enter_scope();
    stack.declare("inner".to_string());
    assert!(stack.declared("outer"));
    assert!(stack.declared("inner"));
    stack.exit_scope();
    assert!(stack.declared("outer"));
    assert!(!stack.declared("inner"));
}

#[test]
fn scope_stack_shadowing_ends_with_the_inner_scope() {
    let mut stack = ScopeStack::new();
    stack.declare("x".to_string());
    stack.enter_scope();
    stack.declare("x".to_string());
    stack.declare("x".to_string());
    stack.exit_scope();
    assert!(stack.declared("x"));
    stack.exit_scope();
    assert!(!stack.declared("x"));
}

#[test]
fn scope_stack_without_scopes_declares_nothing() {
    let mut stack = ScopeStack::new();
    stack.exit_scope();
    stack.exit_scope();
    stack.declare("x".to_string());
    assert!(!stack.declared("x"));
    stack.enter_scope();
    stack.declare("x".to_string());
    assert!(stack.declared("x"));
}

#[test]
fn a_name_of_nested_loop_bodies_is_undeclared_wherever_it_is_used_after() {
    assert_eq!(
        undeclared_in(
            "let a = 1; loop a { loop 2 { let x = a; print x; }; let y = 1; }; a = a + 1; print x;"
        ),
        vec!["x"]
    );
    // The same inside an enclosing block.
    assert_eq!(undeclared_in("loop 1 { loop 2 { let x = 1; }; print 0; print x; };"), vec!["x"]);
}

use hand_compiler::ast::{Expr, Statement, Term};
use hand_compiler::lexer::{Lexer, Token};
use hand_compiler::parser::{ParseError, Parser};

fn parse_source(input: &str) -> Result<hand_compiler::ast::AbstractSyntaxTree, ParseError> {
    let tokens = Lexer::new(input.to_string()).tokenize().unwrap();
    Parser::new(tokens).parse()
}

fn error_of(input: &str) -> ParseError {
    parse_source(input).unwrap_err()
}

fn terms_of(expr: &Expr) -> Vec<String> {
    let mut terms = Vec::new();
    let mut current = Some(expr);
    while let Some(expr) = current {
        terms.push(match &expr.lhs {
            Term::Identifier(name) => name.clone(),
            Term::Number(n) => format!("#{}", n),
        });
        current = expr.rhs.as_deref();
    }
    terms
}

#[test]
fn parser_test_valid_program() {
    // let x = 5; loop 3 { x = x + 1; print x; }
    let tokens = vec![
        Token::Let,
        Token::Identifier("x".to_string()),
        Token::Equals,
        Token::Number(5),
        Token::Semicolon,
        Token::Loop,
        Token::Number(3),
        Token::OpenBracket,
        Token::Identifier("x".to_string()),
        Token::Equals,
        Token::Identifier("x".to_string()),
        Token::Plus,
        Token::Number(1),
        Token::Semicolon,
        Token::Print,
        Token::Identifier("x".to_string()),
        Token::Semicolon,
        Token::CloseBracket,
        Token::Semicolon,
    ];

    let mut parser = Parser::new(tokens);
    parser.parse().unwrap();
}

#[test]
#[should_panic]
fn test_invalid_program() {
    // missing semicolon after let statement
    // let a = 1 + 2 print a;
    let tokens = vec![
        Token::Let,
        Token::Identifier("a".to_string()),
        Token::Equals,
        Token::Number(1),
        Token::Plus,
        Token::Number(2),
        // Missing Semicolon here
        Token::Print,
        Token::Identifier("a".to_string()),
        Token::Semicolon,
    ];

    let mut parser = Parser::new(tokens);
    parser.parse().unwrap();
}

#[test]
fn missing_semicolon_is_reported_at_the_next_token() {
    let tokens = vec![
        Token::Let,
        Token::Identifier("a".to_string()),
        Token::Equals,
        Token::Number(1),
        Token::Plus,
        Token::Number(2),
        Token::Print,
        Token::Identifier("a".to_string()),
        Token::Semicolon,
    ];
    let mut parser = Parser::new(tokens);
    assert_eq!(parser.parse().unwrap_err(), ParseError::UnexpectedToken { position: 6 });
}

#[test]
fn after_an_error_the_parser_stands_on_the_token_that_did_not_fit() {
    let tokens = Lexer::new("let a = 1 print a; print".to_string()).tokenize().unwrap();
    let mut parser = Parser::new(tokens);
    assert_eq!(parser.parse().unwrap_err(), ParseError::UnexpectedToken { position: 4 });
    // `print a; print` is read from that token on, and ends too early.
    assert_eq!(parser.parse().unwrap_err(), ParseError::UnexpectedEnd);
    // At the end of the tokens nothing is left to read.
    assert!(parser.parse().unwrap().statement_list.statements.is_empty());
}

#[test]
fn valid_program_has_the_expected_tree() {
    let ast = parse_source("let x = 5; loop 3 { x = x + 1; print x; };").unwrap();
    let statements = &ast.statement_list.statements;
    assert_eq!(statements.len(), 2);
    match &statements[0] {
        Statement::Let(s) => {
            assert_eq!(s.identifier, "x");
            assert_eq!(terms_of(&s.value), vec!["#5"]);
        }
        other => panic!("not a let: {:?}", other),
    }
    match &statements[1] {
        Statement::Loop(s) => {
            assert_eq!(terms_of(&s.count), vec!["#3"]);
            let body = &s.body.statements.statements;
            assert_eq!(body.len(), 2);
            match &body[0] {
                Statement::Assignment(a) => {
                    assert_eq!(a.identifier, "x");
                    assert_eq!(terms_of(&a.value), vec!["x", "#1"]);
                }
                other => panic!("not an assignment: {:?}", other),
            }
            match &body[1] {
                Statement::Print(p) => assert_eq!(terms_of(&p.value), vec!["x"]),
                other => panic!("not a print: {:?}", other),
            }
        }
        other => panic!("not a loop: {:?}", other),
    }
}

#[test]
fn sum_of_three_is_a_right_nested_chain() {
    let ast = parse_source("let x = 1 + 2 + 3;").unwrap();
    let statements = &ast.statement_list.statements;
    assert_eq!(statements.len(), 1);
    let Statement::Let(s) = &statements[0] else {
        panic!("not a let");
    };
    let first = &s.value;
    assert!(matches!(first.lhs, Term::Number(1)));
    let second = first.rhs.as_ref().unwrap();
    assert!(matches!(second.lhs, Term::Number(2)));
    let third = second.rhs.as_ref().unwrap();
    assert!(matches!(third.lhs, Term::Number(3)));
    assert!(third.rhs.is_none());
}

#[test]
fn no_tokens_are_the_empty_program() {
    let ast = Parser::new(vec![]).parse().unwrap();
    assert!(ast.statement_list.statements.is_empty());
}

#[test]
fn parse_after_success_gives_the_empty_program() {
    let tokens = Lexer::new("print 1;".to_string()).tokenize().unwrap();
    let mut parser = Parser::new(tokens);
    assert_eq!(parser.parse().unwrap().statement_list.statements.len(), 1);
    assert!(parser.parse().unwrap().statement_list.statements.is_empty());
}

#[test]
fn nested_and_empty_blocks() {
    let ast = parse_source("loop 2 { loop n { }; };").unwrap();
    let Statement::Loop(outer) = &ast.statement_list.statements[0] else {
        panic!("not a loop");
    };
    let body = &outer.body.statements.statements;
    assert_eq!(body.len(), 1);
    let Statement::Loop(inner) = &body[0] else {
        panic!("not a loop");
    };
    assert_eq!(terms_of(&inner.count), vec!["n"]);
    assert!(inner.body.statements.statements.is_empty());
}

#[test]
fn a_statement_cannot_start_with_another_token() {
    assert_eq!(error_of("5 = x;"), ParseError::UnexpectedToken { position: 0 });
    assert_eq!(error_of("print 1; + 2;"), ParseError::UnexpectedToken { position: 3 });
    assert_eq!(error_of("; "), ParseError::UnexpectedToken { position: 0 });
}

#[test]
fn a_closing_bracket_at_top_level_is_an_error() {
    assert_eq!(error_of("print 1; }"), ParseError::UnexpectedToken { position: 3 });
}

#[test]
fn each_expected_token_is_checked() {
    // let: identifier, '=', expression, ';'
    assert_eq!(error_of("let = 1;"), ParseError::UnexpectedToken { position: 1 });
    assert_eq!(error_of("let 5 = 1;"), ParseError::UnexpectedToken { position: 1 });
    assert_eq!(error_of("let x 1;"), ParseError::UnexpectedToken { position: 2 });
    assert_eq!(error_of("let x = ;"), ParseError::UnexpectedToken { position: 3 });
    assert_eq!(error_of("let x = 1 2;"), ParseError::UnexpectedToken { position: 4 });
    // assignment
    assert_eq!(error_of("x + 1;"), ParseError::UnexpectedToken { position: 1 });
    assert_eq!(error_of("x = 1 + ;"), ParseError::UnexpectedToken { position: 4 });
    // print
    assert_eq!(error_of("print ;"), ParseError::UnexpectedToken { position: 1 });
    assert_eq!(error_of("print x x;"), ParseError::UnexpectedToken { position: 2 });
    // loop: expression, '{', statements, '}', ';'
    assert_eq!(error_of("loop { };"), ParseError::UnexpectedToken { position: 1 });
    assert_eq!(error_of("loop 3 print x; };"), ParseError::UnexpectedToken { position: 2 });
    assert_eq!(error_of("loop 3 { = };"), ParseError::UnexpectedToken { position: 3 });
    assert_eq!(error_of("loop 3 { } print x;"), ParseError::UnexpectedToken { position: 4 });
}

#[test]
fn tokens_that_end_too_early() {
    assert_eq!(error_of("let"), ParseError::UnexpectedEnd);
    assert_eq!(error_of("let x = 1"), ParseError::UnexpectedEnd);
    assert_eq!(error_of("x = 1 +"), ParseError::UnexpectedEnd);
    assert_eq!(error_of("loop 3 { print x;"), ParseError::UnexpectedEnd);
    // The semicolon after a loop's closing bracket is required.
    assert_eq!(error_of("loop 3 { print x; }"), ParseError::UnexpectedEnd);
}

#[test]
fn a_let_without_its_semicolon_fails_at_the_token_after_its_value() {
    assert_eq!(error_of("let x = 1 + y }"), ParseError::UnexpectedToken { position: 6 });
    assert_eq!(error_of("let x = 1 + y let"), ParseError::UnexpectedToken { position: 6 });
    assert_eq!(error_of("let x = 1 + y"), ParseError::UnexpectedEnd);
    assert!(parse_source("let x = 1 + y;").is_ok());
    // Also where the `let` is not the first statement.
    assert_eq!(error_of("print 1; let x = 2 print x;"), ParseError::UnexpectedToken { position: 7 });
}

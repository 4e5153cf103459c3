use hand_compiler::lexer::{LexError, Lexer, Token};

fn tokens_of(input: &str) -> Result<Vec<Token>, LexError> {
    Lexer::new(input.to_string()).tokenize()
}

#[test]
fn lexer_test_valid_program() {
    let input = "let x = 5; loop 3 { x = x + 1; print x; };";

    let expected_tokens = vec![
        // let x = 5;
        Token::Let,
        Token::Identifier("x".to_string()),
        Token::Equals,
        Token::Number(5),
        Token::Semicolon,
        // loop 3 { x = x + 1; print x; }
        Token::Loop,
        Token::Number(3),
        Token::OpenBracket,
        Token::Identifier("x".to_string()),
        Token::Equals,
        Token::Identifier("x".to_string()),
        Token::Plus,
        Token::Number(1),
        Token::Semicolon,
        Token::Print,
        Token::Identifier("x".to_string()),
        Token::Semicolon,
        Token::CloseBracket,
        Token::Semicolon,
    ];

    let lexer = Lexer::new(input.to_string());
    let actual_tokens: Vec<Token> = lexer.tokenize().unwrap();

    assert_eq!(actual_tokens, expected_tokens);
}

#[test]
#[should_panic]
fn test_stops_at_invalid_char() {
    let input = "let x = @123";
    let lexer = Lexer::new(input.to_string());
    let _: Vec<Token> = lexer.tokenize().unwrap();
}

#[test]
fn invalid_char_is_reported_with_its_position() {
    assert_eq!(
        tokens_of("let x = @123"),
        Err(LexError::UnexpectedCharacter { position: 8, character: '@' })
    );
}

#[test]
fn invalid_char_hides_everything_after_it() {
    assert_eq!(
        tokens_of("a @ b"),
        Err(LexError::UnexpectedCharacter { position: 2, character: '@' })
    );
    assert_eq!(
        tokens_of("a @ 99999999999999999999"),
        Err(LexError::UnexpectedCharacter { position: 2, character: '@' })
    );
}

#[test]
fn let_and_print_tokens() {
    assert_eq!(
        tokens_of("let x = 5; print x;"),
        Ok(vec![
            Token::Let,
            Token::Identifier("x".to_string()),
            Token::Equals,
            Token::Number(5),
            Token::Semicolon,
            Token::Print,
            Token::Identifier("x".to_string()),
            Token::Semicolon,
        ])
    );
}

#[test]
fn empty_and_blank_inputs_have_no_tokens() {
    assert_eq!(tokens_of(""), Ok(vec![]));
    assert_eq!(tokens_of("  \t\n\r "), Ok(vec![]));
}

#[test]
fn next_walks_the_tokens_and_then_stays_at_the_end() {
    let mut lexer = Lexer::new(" a+1 ".to_string());
    assert_eq!(lexer.next(), Ok(Some(Token::Identifier("a".to_string()))));
    assert_eq!(lexer.next(), Ok(Some(Token::Plus)));
    assert_eq!(lexer.next(), Ok(Some(Token::Number(1))));
    assert_eq!(lexer.next(), Ok(None));
    assert_eq!(lexer.next(), Ok(None));
}

#[test]
fn next_repeats_an_error() {
    let mut lexer = Lexer::new("x  ?".to_string());
    assert_eq!(lexer.next(), Ok(Some(Token::Identifier("x".to_string()))));
    let error = Err(LexError::UnexpectedCharacter { position: 3, character: '?' });
    assert_eq!(lexer.next(), error);
    assert_eq!(lexer.next(), error);
}

#[test]
fn keywords_are_whole_words() {
    assert_eq!(
        tokens_of("let lets le loop loops print printx"),
        Ok(vec![
            Token::Let,
            Token::Identifier("lets".to_string()),
            Token::Identifier("le".to_string()),
            Token::Loop,
            Token::Identifier("loops".to_string()),
            Token::Print,
            Token::Identifier("printx".to_string()),
        ])
    );
}

#[test]
fn words_take_letters_and_digits() {
    assert_eq!(
        tokens_of("x1 y22z"),
        Ok(vec![Token::Identifier("x1".to_string()), Token::Identifier("y22z".to_string())])
    );
    // A digit run ends at the first letter, where a word starts.
    assert_eq!(
        tokens_of("12ab"),
        Ok(vec![Token::Number(12), Token::Identifier("ab".to_string())])
    );
}

#[test]
fn words_may_hold_letters_outside_ascii() {
    assert_eq!(
        tokens_of("é = ñandú2;"),
        Ok(vec![
            Token::Identifier("é".to_string()),
            Token::Equals,
            Token::Identifier("ñandú2".to_string()),
            Token::Semicolon,
        ])
    );
}

#[test]
fn whitespace_outside_ascii_is_skipped() {
    assert_eq!(
        tokens_of("a\u{a0}\u{2003}b"),
        Ok(vec![Token::Identifier("a".to_string()), Token::Identifier("b".to_string())])
    );
}

#[test]
fn symbols_need_no_spaces() {
    assert_eq!(
        tokens_of("+=;{}"),
        Ok(vec![
            Token::Plus,
            Token::Equals,
            Token::Semicolon,
            Token::OpenBracket,
            Token::CloseBracket,
        ])
    );
}

#[test]
fn numbers_up_to_the_largest() {
    assert_eq!(tokens_of("0"), Ok(vec![Token::Number(0)]));
    assert_eq!(tokens_of("007"), Ok(vec![Token::Number(7)]));
    assert_eq!(tokens_of("2147483647"), Ok(vec![Token::Number(2147483647)]));
    assert_eq!(tokens_of("0000000002147483647"), Ok(vec![Token::Number(2147483647)]));
}

#[test]
fn number_overflow_is_an_error() {
    assert_eq!(tokens_of("2147483648"), Err(LexError::NumberTooLarge { position: 0 }));
    assert_eq!(
        tokens_of("x = 99999999999999999999999;"),
        Err(LexError::NumberTooLarge { position: 4 })
    );
}

#[test]
fn a_digit_outside_ascii_starts_no_token() {
    assert_eq!(
        tokens_of("x = ٣;"),
        Err(LexError::UnexpectedCharacter { position: 4, character: '٣' })
    );
}

#[test]
fn minus_is_no_symbol() {
    assert_eq!(
        tokens_of("x = 1 - 2;"),
        Err(LexError::UnexpectedCharacter { position: 6, character: '-' })
    );
}

#[test]
fn ascii_whitespace_is_the_blank_and_five_controls() {
    assert_eq!(
        tokens_of("a\tb\nc\u{b}d\u{c}e\rf g"),
        Ok("abcdefg".chars().map(|c| Token::Identifier(c.to_string())).collect())
    );
    // The neighbours of that range are no whitespace, and start no token.
    assert_eq!(
        tokens_of("a\u{8}b"),
        Err(LexError::UnexpectedCharacter { position: 1, character: '\u{8}' })
    );
    assert_eq!(
        tokens_of("a\u{e}b"),
        Err(LexError::UnexpectedCharacter { position: 1, character: '\u{e}' })
    );
    assert_eq!(
        tokens_of("a\u{1f}b"),
        Err(LexError::UnexpectedCharacter { position: 1, character: '\u{1f}' })
    );
}

#[test]
fn ascii_letters_are_a_to_z_in_both_cases() {
    assert_eq!(
        tokens_of("azAZ Let"),
        Ok(vec![Token::Identifier("azAZ".to_string()), Token::Identifier("Let".to_string())])
    );
    for c in ['@', '[', '`', '_', '~', '/', ':'] {
        assert_eq!(
            tokens_of(&format!("x {}", c)),
            Err(LexError::UnexpectedCharacter { position: 2, character: c })
        );
        // Nor do they continue a word.
        assert_eq!(
            tokens_of(&format!("x{}", c)),
            Err(LexError::UnexpectedCharacter { position: 1, character: c })
        );
    }
}

#[test]
fn every_ascii_character_is_classified() {
    for code in 0u8..128 {
        let c = code as char;
        let alone = tokens_of(&c.to_string());
        let after_a_letter = tokens_of(&format!("a{}", c));
        let a = Token::Identifier("a".to_string());
        let unexpected =
            |position| Err(LexError::UnexpectedCharacter { position, character: c });
        if c == ' ' || ('\t'..='\r').contains(&c) {
            assert_eq!(alone, Ok(vec![]));
            assert_eq!(after_a_letter, Ok(vec![a]));
        } else if c.is_ascii_lowercase() || c.is_ascii_uppercase() {
            assert_eq!(alone, Ok(vec![Token::Identifier(c.to_string())]));
            assert_eq!(after_a_letter, Ok(vec![Token::Identifier(format!("a{}", c))]));
        } else if c.is_ascii_digit() {
            assert_eq!(alone, Ok(vec![Token::Number((code - b'0') as i32)]));
            assert_eq!(after_a_letter, Ok(vec![Token::Identifier(format!("a{}", c))]));
        } else if let Some(symbol) = match c {
            '+' => Some(Token::Plus),
            '=' => Some(Token::Equals),
            ';' => Some(Token::Semicolon),
            '{' => Some(Token::OpenBracket),
            '}' => Some(Token::CloseBracket),
            _ => None,
        } {
            assert_eq!(alone, Ok(vec![symbol.clone()]));
            assert_eq!(after_a_letter, Ok(vec![a, symbol]));
        } else {
            assert_eq!(alone, unexpected(0));
            assert_eq!(after_a_letter, unexpected(1));
        }
    }
}

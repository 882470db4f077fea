use teeny::lexer::{lex, LexError, Token, TokenIterator};

#[test]
fn test_lex() {
    let input = r#"
            label main
            let x = 10
            let y = 20
            if x < y
            then
                print "x is less than y"
            endif
            while x < y
            repeat
                input x
            endwhile
            goto main
        "#;

    let tokens = lex(input).unwrap();
    for token in &tokens {
        println!("{:?}", token);
    }
    // 28 words, numbers, strings and operators, and one token per line feed
    let newlines = tokens.iter().filter(|t| **t == Token::Newline).count();
    assert_eq!(newlines, 13);
    assert_eq!(tokens.len() - newlines, 28);
    assert_eq!(tokens.len(), 41);
}

#[test]
fn lex_operators_take_the_longest_match() {
    let tokens = lex("a <= b == c != d >= e < f > g = h + - * /").unwrap();
    let ident = |s: &str| Token::Identifier { name: s.to_string() };
    assert_eq!(
        tokens,
        vec![
            ident("a"),
            Token::LessThanEqual,
            ident("b"),
            Token::EqualEqual,
            ident("c"),
            Token::NotEqual,
            ident("d"),
            Token::GreaterThanEqual,
            ident("e"),
            Token::LessThan,
            ident("f"),
            Token::GreaterThan,
            ident("g"),
            Token::Equal,
            ident("h"),
            Token::Plus,
            Token::Minus,
            Token::Asterisk,
            Token::Slash,
        ]
    );
}

#[test]
fn lex_keywords_numbers_and_strings() {
    let tokens = lex("label goto print input let if then endif while repeat endwhile\n").unwrap();
    assert_eq!(
        tokens,
        vec![
            Token::Label { name: "label".to_string() },
            Token::Goto,
            Token::Print,
            Token::Input,
            Token::Let,
            Token::If,
            Token::Then,
            Token::Endif,
            Token::While,
            Token::Repeat,
            Token::Endwhile,
            Token::Newline,
        ]
    );
    let tokens = lex("x_1 42 \"a b\" printer\t\r007").unwrap();
    assert_eq!(
        tokens,
        vec![
            Token::Identifier { name: "x_1".to_string() },
            Token::Number { value: 42 },
            Token::String { value: "a b".to_string() },
            Token::Identifier { name: "printer".to_string() },
            Token::Number { value: 7 },
        ]
    );
}

#[test]
fn lex_unterminated_string_stops_at_line_end() {
    let tokens = lex("print \"open\nprint 1").unwrap();
    assert_eq!(
        tokens,
        vec![
            Token::Print,
            Token::String { value: "open".to_string() },
            Token::Newline,
            Token::Print,
            Token::Number { value: 1 },
        ]
    );
}

#[test]
fn lex_nul_is_an_error() {
    assert_eq!(lex("x\0"), Err(LexError::UnexpectedChar { ch: '\0', pos: 1 }));
}

#[test]
fn lex_empty_input_has_no_tokens() {
    assert_eq!(lex("").unwrap(), Vec::<Token>::new());
    assert_eq!(lex("  \t\r ").unwrap(), Vec::<Token>::new());
}

#[test]
fn lex_bare_bang_is_an_error() {
    assert_eq!(lex("a ! b"), Err(LexError::UnexpectedChar { ch: '!', pos: 2 }));
    assert_eq!(lex("a !"), Err(LexError::UnexpectedChar { ch: '!', pos: 2 }));
}

#[test]
fn lex_unknown_character_is_an_error() {
    assert_eq!(lex("let x = 1\nprint x % 2"), Err(LexError::UnexpectedChar { ch: '%', pos: 18 }));
    assert_eq!(lex("é"), Err(LexError::UnexpectedChar { ch: 'é', pos: 0 }));
}

#[test]
fn lex_number_limits() {
    assert_eq!(lex("2147483647").unwrap(), vec![Token::Number { value: i32::MAX }]);
    assert_eq!(lex("x 2147483648"), Err(LexError::NumberTooLarge { pos: 2 }));
    assert_eq!(lex("99999999999999999999"), Err(LexError::NumberTooLarge { pos: 0 }));
}

#[test]
fn token_iterator_peeks_and_advances() {
    let tokens = lex("print 1").unwrap();
    let mut it = TokenIterator::new(&tokens);
    assert_eq!(it.peek(), Some(&Token::Print));
    assert_eq!(it.next(), Some(Token::Print));
    assert_eq!(it.peek(), Some(&Token::Number { value: 1 }));
    it.advance();
    assert_eq!(it.peek(), None);
    assert_eq!(it.next(), None);
    it.advance();
    assert_eq!(it.peek(), None);
}

#[test]
fn lex_yields_one_newline_per_line_feed() {
    let text = "let a = 1\n\nprint \"x\ny\"\r\n";
    let tokens = lex(text).unwrap();
    let feeds = text.chars().filter(|c| *c == '\n').count();
    assert_eq!(tokens.iter().filter(|t| **t == Token::Newline).count(), feeds);
    assert_eq!(feeds, 4);
}

#[test]
fn lex_string_text_may_hold_any_character() {
    assert_eq!(
        lex("print \"50% off! \0 \u{e9}\"").unwrap(),
        vec![Token::Print, Token::String { value: "50% off! \0 \u{e9}".to_string() }]
    );
}

use teeny::lexer::{lex, Token, TokenIterator};
use teeny::parser::{
    parse, parse_comparison, parse_expression, parse_statement, parse_unary, Comparison, Expected,
    Expression, ExpressionTail, ParseError, Primary, Statement, TailTerm, TailUnary, Term,
    TermTail, Unary, AST,
};

fn number(n: i32) -> Expression {
    Expression::SingleTerm(Box::new(Term::SingleUnary(Box::new(Unary::Plus(Box::new(
        Primary::Number(n),
    ))))))
}

fn parse_text(input: &str) -> Result<AST, ParseError> {
    let tokens = lex(input).unwrap();
    let mut it = TokenIterator::new(&tokens);
    parse(&mut it)
}

#[test]
fn test_parse() {
    let input = r#"
print "waddup"
if 1 == 1 then
print 2
endif
while 1 == 1 repeat
print 3
endwhile
label foo
goto foo
let x = 1
input x
"#;

    let tokens = lex(input).unwrap();

    for token in tokens.clone() {
        println!("Token: {:?}", token);
    }

    let mut tokens = TokenIterator::new(&tokens);
    let ast = parse(&mut tokens).unwrap();

    assert_eq!(
        ast,
        AST::Program(vec![
            Statement::PrintString("waddup".to_string()),
            Statement::If {
                comparison: Comparison::Equal(
                    Box::new(Expression::SingleTerm(Box::new(Term::SingleUnary(
                        Box::new(Unary::Plus(Box::new(Primary::Number(1))))
                    )))),
                    Box::new(Expression::SingleTerm(Box::new(Term::SingleUnary(
                        Box::new(Unary::Plus(Box::new(Primary::Number(1))))
                    ))))
                ),
                body: vec![Statement::PrintExpression(Box::new(
                    Expression::SingleTerm(Box::new(Term::SingleUnary(Box::new(Unary::Plus(
                        Box::new(Primary::Number(2))
                    )))))
                ))]
            },
            Statement::While {
                comparison: Comparison::Equal(
                    Box::new(Expression::SingleTerm(Box::new(Term::SingleUnary(
                        Box::new(Unary::Plus(Box::new(Primary::Number(1))))
                    )))),
                    Box::new(Expression::SingleTerm(Box::new(Term::SingleUnary(
                        Box::new(Unary::Plus(Box::new(Primary::Number(1))))
                    ))))
                ),
                body: vec![Statement::PrintExpression(Box::new(
                    Expression::SingleTerm(Box::new(Term::SingleUnary(Box::new(Unary::Plus(
                        Box::new(Primary::Number(3))
                    )))))
                ))]
            },
            Statement::Label("foo".to_string()),
            Statement::Goto("foo".to_string()),
            Statement::Let {
                ident: "x".to_string(),
                expression: Expression::SingleTerm(Box::new(Term::SingleUnary(Box::new(
                    Unary::Plus(Box::new(Primary::Number(1)))
                ))))
            },
            Statement::Input("x".to_string())
        ])
    );
}

#[test]
fn parse_print_string() {
    assert_eq!(
        parse_text("print \"hi\"").unwrap(),
        AST::Program(vec![Statement::PrintString("hi".to_string())])
    );
}

#[test]
fn parse_let_minimal_chain() {
    assert_eq!(
        parse_text("let x = 1").unwrap(),
        AST::Program(vec![Statement::Let { ident: "x".to_string(), expression: number(1) }])
    );
}

#[test]
fn parse_subtraction_is_left_associative() {
    let tokens = lex("1 - 2 - 3").unwrap();
    let mut it = TokenIterator::new(&tokens);
    let term = |n: i32| {
        Box::new(Term::SingleUnary(Box::new(Unary::Plus(Box::new(Primary::Number(n))))))
    };
    assert_eq!(
        parse_expression(&mut it).unwrap(),
        Expression::WithTail(
            term(1),
            Box::new(ExpressionTail::Tail(vec![TailTerm::Subtract(term(2)), TailTerm::Subtract(term(3))]))
        )
    );
    assert_eq!(it.peek(), None);
}

#[test]
fn parse_products_bind_tighter_than_sums() {
    let tokens = lex("a * b / 2 + c").unwrap();
    let mut it = TokenIterator::new(&tokens);
    let unary = |p: Primary| Box::new(Unary::Plus(Box::new(p)));
    let ident = |s: &str| Primary::Ident(s.to_string());
    assert_eq!(
        parse_expression(&mut it).unwrap(),
        Expression::WithTail(
            Box::new(Term::WithTail(
                unary(ident("a")),
                Box::new(TermTail::Tail(vec![
                    TailUnary::Multiply(unary(ident("b"))),
                    TailUnary::Divide(unary(Primary::Number(2))),
                ]))
            )),
            Box::new(ExpressionTail::Tail(vec![TailTerm::Add(Box::new(Term::SingleUnary(unary(
                ident("c")
            ))))]))
        )
    );
}

#[test]
fn parse_unary_default_sign_is_plus() {
    let tokens = lex("x").unwrap();
    let mut it = TokenIterator::new(&tokens);
    assert_eq!(
        parse_unary(&mut it).unwrap(),
        Unary::Plus(Box::new(Primary::Ident("x".to_string())))
    );
    let tokens = lex("-7 +y").unwrap();
    let mut it = TokenIterator::new(&tokens);
    assert_eq!(parse_unary(&mut it).unwrap(), Unary::Minus(Box::new(Primary::Number(7))));
    assert_eq!(
        parse_unary(&mut it).unwrap(),
        Unary::Plus(Box::new(Primary::Ident("y".to_string())))
    );
}

#[test]
fn parse_signs_do_not_chain() {
    let tokens = lex("--x").unwrap();
    let mut it = TokenIterator::new(&tokens);
    assert_eq!(
        parse_unary(&mut it),
        Err(ParseError { expected: Expected::NumberOrIdentifier, found: Some(Token::Minus) })
    );
}

#[test]
fn parse_comparison_needs_exactly_one_operator() {
    let tokens = lex("1 < 2").unwrap();
    let mut it = TokenIterator::new(&tokens);
    assert_eq!(
        parse_comparison(&mut it).unwrap(),
        Comparison::LessThan(Box::new(number(1)), Box::new(number(2)))
    );
    let tokens = lex("1 2").unwrap();
    let mut it = TokenIterator::new(&tokens);
    assert_eq!(
        parse_comparison(&mut it),
        Err(ParseError {
            expected: Expected::ComparisonOperator,
            found: Some(Token::Number { value: 2 })
        })
    );
    let tokens = lex("1 < < 2").unwrap();
    let mut it = TokenIterator::new(&tokens);
    assert_eq!(
        parse_comparison(&mut it),
        Err(ParseError { expected: Expected::NumberOrIdentifier, found: Some(Token::LessThan) })
    );
}

#[test]
fn parse_each_relation() {
    let cases: Vec<(&str, fn(Box<Expression>, Box<Expression>) -> Comparison)> = vec![
        ("1 == 2", Comparison::Equal),
        ("1 != 2", Comparison::NotEqual),
        ("1 > 2", Comparison::GreaterThan),
        ("1 >= 2", Comparison::GreaterThanEqual),
        ("1 < 2", Comparison::LessThan),
        ("1 <= 2", Comparison::LessThanEqual),
    ];
    for (text, make) in cases {
        let tokens = lex(text).unwrap();
        let mut it = TokenIterator::new(&tokens);
        assert_eq!(parse_comparison(&mut it).unwrap(), make(Box::new(number(1)), Box::new(number(2))));
    }
}

#[test]
fn parse_nested_blocks_balance() {
    let ast = parse_text("while x < 3 repeat\nif x == 1 then\nprint x\nendif\nlet x = x + 1\nendwhile\n")
        .unwrap();
    let AST::Program(statements) = ast;
    assert_eq!(statements.len(), 1);
    match &statements[0] {
        Statement::While { body, .. } => {
            assert_eq!(body.len(), 2);
            assert!(matches!(&body[0], Statement::If { body, .. } if body.len() == 1));
            assert!(matches!(&body[1], Statement::Let { .. }));
        }
        other => panic!("not a while: {:?}", other),
    }
}

#[test]
fn parse_missing_endif_is_an_error() {
    assert_eq!(
        parse_text("if 1 == 1 then\nprint 2\n"),
        Err(ParseError { expected: Expected::Endif, found: None })
    );
    assert_eq!(
        parse_text("while 1 == 1 repeat\nprint 2\n"),
        Err(ParseError { expected: Expected::Endwhile, found: None })
    );
    // the inner block takes the only endif
    assert_eq!(
        parse_text("if 1 == 1 then\nif 2 == 2 then\nendif\n"),
        Err(ParseError { expected: Expected::Endif, found: None })
    );
}

#[test]
fn parse_errors_name_what_was_expected() {
    assert_eq!(
        parse_text("goto 5"),
        Err(ParseError { expected: Expected::Identifier, found: Some(Token::Number { value: 5 }) })
    );
    assert_eq!(
        parse_text("label"),
        Err(ParseError { expected: Expected::Identifier, found: None })
    );
    assert_eq!(
        parse_text("let x 5"),
        Err(ParseError { expected: Expected::Equal, found: Some(Token::Number { value: 5 }) })
    );
    assert_eq!(
        parse_text("then"),
        Err(ParseError { expected: Expected::Statement, found: Some(Token::Then) })
    );
    assert_eq!(
        parse_text("x = 1"),
        Err(ParseError {
            expected: Expected::Statement,
            found: Some(Token::Identifier { name: "x".to_string() })
        })
    );
    assert_eq!(
        parse_text("endif"),
        Err(ParseError { expected: Expected::Statement, found: Some(Token::Endif) })
    );
}

#[test]
fn parse_statement_reads_one_statement() {
    let tokens = lex("input n\nprint n").unwrap();
    let mut it = TokenIterator::new(&tokens);
    assert_eq!(parse_statement(&mut it).unwrap(), Statement::Input("n".to_string()));
    assert_eq!(it.peek(), Some(&Token::Newline));
}

#[test]
fn parse_empty_program() {
    assert_eq!(parse_text("").unwrap(), AST::Program(vec![]));
    assert_eq!(parse_text("\n\n").unwrap(), AST::Program(vec![]));
}

#[test]
fn parse_uses_up_all_tokens() {
    let tokens = lex("print \"hi\"").unwrap();
    let mut it = TokenIterator::new(&tokens);
    assert_eq!(
        parse(&mut it).unwrap(),
        AST::Program(vec![Statement::PrintString("hi".to_string())])
    );
    assert_eq!(it.peek(), None);
    assert_eq!(it.next(), None);
}

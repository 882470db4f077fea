use teeny::emitter::EmitError;
use teeny::lexer::{lex, LexError, Token, TokenIterator};
use teeny::parser::{parse, Expected, ParseError, Statement, AST};
use teeny::{compile, CompileError, Config};

const SCENARIO: &str = "print \"waddup\"
if 1 == 1 then
print 2
endif
label foo
goto foo
let x = 1
input x
";

#[test]
fn end_to_end_scenario() {
    let tokens = lex(SCENARIO).unwrap();
    let mut it = TokenIterator::new(&tokens);
    let AST::Program(statements) = parse(&mut it).unwrap();
    assert_eq!(statements.len(), 6);
    assert!(matches!(statements[0], Statement::PrintString(_)));
    match &statements[1] {
        Statement::If { body, .. } => {
            assert_eq!(body.len(), 1);
            assert!(matches!(body[0], Statement::PrintExpression(_)));
        }
        other => panic!("not an if: {:?}", other),
    }
    assert_eq!(statements[2], Statement::Label("foo".to_string()));
    assert_eq!(statements[3], Statement::Goto("foo".to_string()));
    assert!(matches!(statements[4], Statement::Let { .. }));
    assert_eq!(statements[5], Statement::Input("x".to_string()));

    let out = compile(SCENARIO).unwrap();
    let expected: Vec<String> = [
        "#include <stdio.h>",
        "int main(void){\n",
        "int x = 0;",
        "printf(\"waddup\\n\");",
        "if ((+1) == (+1)) {",
        "    printf(\"%d\\n\", (+2));",
        "}",
        "foo:;",
        "goto foo;",
        "x = (+1);",
        "scanf(\"%d\", &x);",
        "return 0;",
        "}",
    ]
    .iter()
    .map(|s| s.to_string())
    .collect();
    assert_eq!(out, expected);
}

#[test]
fn dangling_goto_scenario() {
    assert_eq!(
        compile("goto bar"),
        Err(CompileError::Emit(EmitError::DanglingLabel { name: "bar".to_string() }))
    );
    assert_eq!(
        compile("label foo\ngoto bar\n"),
        Err(CompileError::Emit(EmitError::DanglingLabel { name: "bar".to_string() }))
    );
}

#[test]
fn compile_stops_at_first_stage_error() {
    assert_eq!(
        compile("print 1 ! 2\ngoto nowhere"),
        Err(CompileError::Lex(LexError::UnexpectedChar { ch: '!', pos: 8 }))
    );
    assert_eq!(
        compile("print\ngoto nowhere"),
        Err(CompileError::Parse(ParseError {
            expected: Expected::NumberOrIdentifier,
            found: Some(Token::Newline)
        }))
    );
}

#[test]
fn config_takes_the_first_argument() {
    let args = vec!["teeny".to_string(), "prog.tiny".to_string(), "extra".to_string()];
    let config = Config::new(&args).unwrap();
    assert_eq!(config.path, "prog.tiny");
    let err = Config::new(&vec!["teeny".to_string()]).err();
    assert_eq!(err, Some("Please provide a file path"));
    assert!(Config::new(&vec![]).is_err());
}

use teeny::emitter::{emit_program, EmitError};
use teeny::parser::{
    Comparison, Expression, ExpressionTail, Primary, Statement, TailTerm, TailUnary, Term,
    TermTail, Unary,
};

fn lines(v: &[&str]) -> Vec<String> {
    v.iter().map(|s| s.to_string()).collect()
}

fn unary(p: Primary) -> Box<Unary> {
    Box::new(Unary::Plus(Box::new(p)))
}

fn single(p: Primary) -> Expression {
    Expression::SingleTerm(Box::new(Term::SingleUnary(unary(p))))
}

fn ident(s: &str) -> Primary {
    Primary::Ident(s.to_string())
}

#[test]
fn test_emit_program() {
    let ast = vec![Statement::PrintString("waddup".to_string())];
    let result = emit_program(ast).unwrap();
    assert_eq!(
        result,
        vec![
            "#include <stdio.h>".to_string(),
            "int main(void){\n".to_string(),
            "printf(\"waddup\\n\");".to_string(),
            "return 0;".to_string(),
            "}".to_string(),
        ]
    );
}

#[test]
fn emit_every_statement_form() {
    let program = vec![
        Statement::Input("n".to_string()),
        Statement::Label("top".to_string()),
        Statement::While {
            comparison: Comparison::GreaterThan(
                Box::new(single(ident("n"))),
                Box::new(single(Primary::Number(0))),
            ),
            body: vec![
                Statement::If {
                    comparison: Comparison::NotEqual(
                        Box::new(single(ident("n"))),
                        Box::new(single(Primary::Number(3))),
                    ),
                    body: vec![Statement::PrintExpression(Box::new(single(ident("n"))))],
                },
                Statement::Let {
                    ident: "n".to_string(),
                    expression: Expression::WithTail(
                        Box::new(Term::SingleUnary(unary(ident("n")))),
                        Box::new(ExpressionTail::Tail(vec![TailTerm::Subtract(Box::new(
                            Term::SingleUnary(unary(Primary::Number(1))),
                        ))])),
                    ),
                },
            ],
        },
        Statement::Goto("top".to_string()),
    ];
    assert_eq!(
        emit_program(program).unwrap(),
        lines(&[
            "#include <stdio.h>",
            "int main(void){\n",
            "int n = 0;",
            "scanf(\"%d\", &n);",
            "top:;",
            "while ((+n) > (+0)) {",
            "    if ((+n) != (+3)) {",
            "        printf(\"%d\\n\", (+n));",
            "    }",
            "    n = ((+n) - (+1));",
            "}",
            "goto top;",
            "return 0;",
            "}",
        ])
    );
}

#[test]
fn emit_expressions_fully_parenthesized() {
    // -a * b / 2 + c - -5
    let expression = Expression::WithTail(
        Box::new(Term::WithTail(
            Box::new(Unary::Minus(Box::new(ident("a")))),
            Box::new(TermTail::Tail(vec![
                TailUnary::Multiply(unary(ident("b"))),
                TailUnary::Divide(unary(Primary::Number(2))),
            ])),
        )),
        Box::new(ExpressionTail::Tail(vec![
            TailTerm::Add(Box::new(Term::SingleUnary(unary(ident("c"))))),
            TailTerm::Subtract(Box::new(Term::SingleUnary(Box::new(Unary::Minus(Box::new(
                Primary::Number(5),
            )))))),
        ])),
    );
    let out = emit_program(vec![Statement::PrintExpression(Box::new(expression))]).unwrap();
    assert_eq!(out[2], "printf(\"%d\\n\", (((((-a) * (+b)) / (+2)) + (+c)) - (-5)));");
}

#[test]
fn emit_number_literals() {
    let out = emit_program(vec![
        Statement::PrintExpression(Box::new(single(Primary::Number(2147483647)))),
        Statement::PrintExpression(Box::new(single(Primary::Number(-2147483648)))),
        Statement::PrintExpression(Box::new(single(Primary::Number(1090)))),
    ])
    .unwrap();
    assert_eq!(out[2], "printf(\"%d\\n\", (+2147483647));");
    assert_eq!(out[3], "printf(\"%d\\n\", (+(-2147483648)));");
    assert_eq!(out[4], "printf(\"%d\\n\", (+1090));");
}

#[test]
fn emit_declares_each_variable_once_in_order() {
    let out = emit_program(vec![
        Statement::Let { ident: "b".to_string(), expression: single(Primary::Number(1)) },
        Statement::If {
            comparison: Comparison::Equal(Box::new(single(ident("b"))), Box::new(single(ident("b")))),
            body: vec![Statement::Input("a".to_string()), Statement::Input("b".to_string())],
        },
        Statement::Input("a".to_string()),
    ])
    .unwrap();
    assert_eq!(out[2], "int b = 0;");
    assert_eq!(out[3], "int a = 0;");
    assert_eq!(out[4], "b = (+1);");
}

#[test]
fn emit_dangling_goto_is_an_error() {
    assert_eq!(
        emit_program(vec![Statement::Goto("bar".to_string())]),
        Err(EmitError::DanglingLabel { name: "bar".to_string() })
    );
}

#[test]
fn emit_reports_first_dangling_goto_in_program_order() {
    let program = vec![
        Statement::While {
            comparison: Comparison::LessThan(Box::new(single(ident("x"))), Box::new(single(ident("y")))),
            body: vec![Statement::Goto("inner".to_string())],
        },
        Statement::Goto("outer".to_string()),
    ];
    assert_eq!(
        emit_program(program),
        Err(EmitError::DanglingLabel { name: "inner".to_string() })
    );
}

#[test]
fn emit_forward_and_nested_labels_resolve() {
    let program = vec![
        Statement::Goto("later".to_string()),
        Statement::If {
            comparison: Comparison::LessThanEqual(
                Box::new(single(Primary::Number(1))),
                Box::new(single(Primary::Number(2))),
            ),
            body: vec![Statement::Label("later".to_string())],
        },
    ];
    let out = emit_program(program).unwrap();
    assert_eq!(out[2], "goto later;");
    assert_eq!(out[3], "if ((+1) <= (+2)) {");
    assert_eq!(out[4], "    later:;");
}

#[test]
fn emit_twice_gives_identical_output() {
    let make = || {
        vec![
            Statement::Let { ident: "x".to_string(), expression: single(Primary::Number(4)) },
            Statement::Label("l".to_string()),
            Statement::Goto("l".to_string()),
        ]
    };
    let first = emit_program(make()).unwrap();
    let second = emit_program(make()).unwrap();
    assert_eq!(first, second);
}

#[test]
fn emit_empty_program() {
    assert_eq!(
        emit_program(vec![]).unwrap(),
        lines(&["#include <stdio.h>", "int main(void){\n", "return 0;", "}"])
    );
}

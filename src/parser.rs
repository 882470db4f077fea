//! Recursive-descent parser for the grammar
//!
//! ```text
//! program    ::= {statement}
//! statement  ::= "print" (string | expression)
//!              | "if" comparison ["then"] {statement} "endif"
//!              | "while" comparison ["repeat"] {statement} "endwhile"
//!              | "label" ident
//!              | "goto" ident
//!              | "let" ident "=" expression
//!              | "input" ident
//! comparison ::= expression ("==" | "!=" | ">" | ">=" | "<" | "<=") expression
//! expression ::= term {("-" | "+") term}
//! term       ::= unary {("/" | "*") unary}
//! unary      ::= ["+" | "-"] primary
//! primary    ::= number | ident
//! ```
//!
//! Line feeds separate statements and may appear wherever a statement may
//! start; inside a body, `then` (of an `if`) and `repeat` (of a `while`) are
//! skipped.
use crate::lexer::{token_opt, Token, TokenIterator};
use vstd::prelude::*;

verus! {

broadcast use vstd::std_specs::vec::group_vec_axioms;

/// A parsed program: its top-level statements, in order.
#[derive(Debug, PartialEq)]
pub enum AST {
    Program(Vec<Statement>),
}

/// One statement; `if` and `while` own the statements of their bodies.
#[derive(Debug, PartialEq)]
pub enum Statement {
    PrintString(String),
    PrintExpression(Box<Expression>),
    If { comparison: Comparison, body: Vec<Statement> },
    While { comparison: Comparison, body: Vec<Statement> },
    Label(String),
    Goto(String),
    Let { ident: String, expression: Expression },
    Input(String),
}

/// Two expressions related by one of six comparison operators.
#[derive(Debug, Clone, PartialEq)]
pub enum Comparison {
    Equal(Box<Expression>, Box<Expression>),
    NotEqual(Box<Expression>, Box<Expression>),
    GreaterThan(Box<Expression>, Box<Expression>),
    GreaterThanEqual(Box<Expression>, Box<Expression>),
    LessThan(Box<Expression>, Box<Expression>),
    LessThanEqual(Box<Expression>, Box<Expression>),
}

/// A term, optionally followed by `+` / `-` operations applied left to right.
#[derive(Debug, Clone, PartialEq)]
pub enum Expression {
    SingleTerm(Box<Term>),
    WithTail(Box<Term>, Box<ExpressionTail>),
}

/// The `+` / `-` operations of an expression, in source order.
#[derive(Debug, Clone, PartialEq)]
pub enum ExpressionTail {
    Tail(Vec<TailTerm>),
}

/// One `+` or `-` operation and its right operand.
#[derive(Debug, Clone, PartialEq)]
pub enum TailTerm {
    Add(Box<Term>),
    Subtract(Box<Term>),
}

/// A unary, optionally followed by `*` / `/` operations applied left to right.
#[derive(Debug, Clone, PartialEq)]
pub enum Term {
    SingleUnary(Box<Unary>),
    WithTail(Box<Unary>, Box<TermTail>),
}

/// The `*` / `/` operations of a term, in source order.
#[derive(Debug, Clone, PartialEq)]
pub enum TermTail {
    Tail(Vec<TailUnary>),
}

/// One `*` or `/` operation and its right operand.
#[derive(Debug, Clone, PartialEq)]
pub enum TailUnary {
    Multiply(Box<Unary>),
    Divide(Box<Unary>),
}

/// A primary with its sign; an unsigned primary has the sign `+`.
#[derive(Debug, Clone, PartialEq)]
pub enum Unary {
    Plus(Box<Primary>),
    Minus(Box<Primary>),
}

/// An operand: an integer literal or a variable.
#[derive(Debug, Clone, PartialEq)]
pub enum Primary {
    Number(i32),
    Ident(String),
}

// The mathematical content of the syntax tree: sequences for vectors and
// character sequences for texts.
pub enum PrimaryV {
    Number(i32),
    Ident(Seq<char>),
}

pub enum UnaryV {
    Plus(PrimaryV),
    Minus(PrimaryV),
}

pub enum TailUnaryV {
    Multiply(UnaryV),
    Divide(UnaryV),
}

pub enum TermV {
    SingleUnary(UnaryV),
    WithTail(UnaryV, Seq<TailUnaryV>),
}

pub enum TailTermV {
    Add(TermV),
    Subtract(TermV),
}

pub enum ExpressionV {
    SingleTerm(TermV),
    WithTail(TermV, Seq<TailTermV>),
}

/// The six relations a comparison may use.
pub enum Relation {
    Equal,
    NotEqual,
    GreaterThan,
    GreaterThanEqual,
    LessThan,
    LessThanEqual,
}

pub struct ComparisonV {
    pub relation: Relation,
    pub lhs: ExpressionV,
    pub rhs: ExpressionV,
}

pub enum StatementV {
    PrintString(Seq<char>),
    PrintExpression(ExpressionV),
    If { comparison: ComparisonV, body: Seq<StatementV> },
    While { comparison: ComparisonV, body: Seq<StatementV> },
    Label(Seq<char>),
    Goto(Seq<char>),
    Let { ident: Seq<char>, expression: ExpressionV },
    Input(Seq<char>),
}

impl View for Primary {
    type V = PrimaryV;

    open spec fn view(&self) -> PrimaryV {
        match self {
            Primary::Number(n) => PrimaryV::Number(*n),
            Primary::Ident(s) => PrimaryV::Ident(s@),
        }
    }
}

impl View for Unary {
    type V = UnaryV;

    open spec fn view(&self) -> UnaryV {
        match self {
            Unary::Plus(p) => UnaryV::Plus(p@),
            Unary::Minus(p) => UnaryV::Minus(p@),
        }
    }
}

impl View for TailUnary {
    type V = TailUnaryV;

    open spec fn view(&self) -> TailUnaryV {
        match self {
            TailUnary::Multiply(u) => TailUnaryV::Multiply(u@),
            TailUnary::Divide(u) => TailUnaryV::Divide(u@),
        }
    }
}

impl View for TermTail {
    type V = Seq<TailUnaryV>;

    open spec fn view(&self) -> Seq<TailUnaryV> {
        match self {
            TermTail::Tail(v) => v@.map_values(|t: TailUnary| t@),
        }
    }
}

impl View for Term {
    type V = TermV;

    open spec fn view(&self) -> TermV {
        match self {
            Term::SingleUnary(u) => TermV::SingleUnary(u@),
            Term::WithTail(u, t) => TermV::WithTail(u@, t@),
        }
    }
}

impl View for TailTerm {
    type V = TailTermV;

    open spec fn view(&self) -> TailTermV {
        match self {
            TailTerm::Add(t) => TailTermV::Add(t@),
            TailTerm::Subtract(t) => TailTermV::Subtract(t@),
        }
    }
}

impl View for ExpressionTail {
    type V = Seq<TailTermV>;

    open spec fn view(&self) -> Seq<TailTermV> {
        match self {
            ExpressionTail::Tail(v) => v@.map_values(|t: TailTerm| t@),
        }
    }
}

impl View for Expression {
    type V = ExpressionV;

    open spec fn view(&self) -> ExpressionV {
        match self {
            Expression::SingleTerm(t) => ExpressionV::SingleTerm(t@),
            Expression::WithTail(t, tail) => ExpressionV::WithTail(t@, tail@),
        }
    }
}

impl View for Comparison {
    type V = ComparisonV;

    open spec fn view(&self) -> ComparisonV {
        match self {
            Comparison::Equal(l, r) => ComparisonV { relation: Relation::Equal, lhs: l@, rhs: r@ },
            Comparison::NotEqual(l, r) => ComparisonV {
                relation: Relation::NotEqual,
                lhs: l@,
                rhs: r@,
            },
            Comparison::GreaterThan(l, r) => ComparisonV {
                relation: Relation::GreaterThan,
                lhs: l@,
                rhs: r@,
            },
            Comparison::GreaterThanEqual(l, r) => ComparisonV {
                relation: Relation::GreaterThanEqual,
                lhs: l@,
                rhs: r@,
            },
            Comparison::LessThan(l, r) => ComparisonV {
                relation: Relation::LessThan,
                lhs: l@,
                rhs: r@,
            },
            Comparison::LessThanEqual(l, r) => ComparisonV {
                relation: Relation::LessThanEqual,
                lhs: l@,
                rhs: r@,
            },
        }
    }
}

/// The view of a statement; nested bodies are viewed element by element.
pub open spec fn statement_view(s: Statement) -> StatementV
    decreases s, 0int,
{
    match s {
        Statement::PrintString(t) => StatementV::PrintString(t@),
        Statement::PrintExpression(e) => StatementV::PrintExpression(e@),
        Statement::If { comparison, body } => StatementV::If {
            comparison: comparison@,
            body: statements_view(body, body.len() as int),
        },
        Statement::While { comparison, body } => StatementV::While {
            comparison: comparison@,
            body: statements_view(body, body.len() as int),
        },
        Statement::Label(t) => StatementV::Label(t@),
        Statement::Goto(t) => StatementV::Goto(t@),
        Statement::Let { ident, expression } => StatementV::Let {
            ident: ident@,
            expression: expression@,
        },
        Statement::Input(t) => StatementV::Input(t@),
    }
}

/// The views of the first `n` statements of `v`.
pub open spec fn statements_view(v: Vec<Statement>, n: int) -> Seq<StatementV>
    decreases v, n,
{
    if n <= 0 || n > v.len() {
        Seq::empty()
    } else {
        statements_view(v, n - 1).push(statement_view(v[n - 1]))
    }
}

impl View for Statement {
    type V = StatementV;

    open spec fn view(&self) -> StatementV {
        statement_view(*self)
    }
}

impl View for AST {
    type V = Seq<StatementV>;

    open spec fn view(&self) -> Seq<StatementV> {
        match self {
            AST::Program(v) => statements_view(*v, v.len() as int),
        }
    }
}


/// What the parser was looking for when it stopped.
#[derive(Debug, Clone, Copy, PartialEq, Eq)]
pub enum Expected {
    /// A keyword that starts a statement.
    Statement,
    /// The name after `label`, `goto`, `let` or `input`.
    Identifier,
    /// The `=` of a `let`.
    Equal,
    /// One of `==`, `!=`, `>`, `>=`, `<`, `<=`.
    ComparisonOperator,
    /// A number or a name, as an operand.
    NumberOrIdentifier,
    /// The `endif` that closes an `if`.
    Endif,
    /// The `endwhile` that closes a `while`.
    Endwhile,
}

/// A parse failure: what was expected, and the token found instead (`None`
/// at the end of the input).
#[derive(Debug, Clone, PartialEq)]
pub struct ParseError {
    pub expected: Expected,
    pub found: Option<Token>,
}

/// The error for an unexpected token at index `i`.
pub open spec fn error_at<T>(ts: Seq<Token>, i: int, expected: Expected) -> Result<(T, int), ParseError> {
    Err(ParseError { expected, found: token_opt(ts, i) })
}

pub open spec fn primary_spec(ts: Seq<Token>, i: int) -> Result<(PrimaryV, int), ParseError> {
    match token_opt(ts, i) {
        Some(Token::Number { value }) => Ok((PrimaryV::Number(value), i + 1)),
        Some(Token::Identifier { name }) => Ok((PrimaryV::Ident(name@), i + 1)),
        _ => error_at(ts, i, Expected::NumberOrIdentifier),
    }
}

/// A primary with an optional sign; no sign reads as `+`.
pub open spec fn unary_spec(ts: Seq<Token>, i: int) -> Result<(UnaryV, int), ParseError> {
    match token_opt(ts, i) {
        Some(Token::Plus) => match primary_spec(ts, i + 1) {
            Ok((p, j)) => Ok((UnaryV::Plus(p), j)),
            Err(e) => Err(e),
        },
        Some(Token::Minus) => match primary_spec(ts, i + 1) {
            Ok((p, j)) => Ok((UnaryV::Minus(p), j)),
            Err(e) => Err(e),
        },
        _ => match primary_spec(ts, i) {
            Ok((p, j)) => Ok((UnaryV::Plus(p), j)),
            Err(e) => Err(e),
        },
    }
}

/// The `*` / `/` operations that follow a term's first unary, in order.
pub open spec fn term_tail_spec(ts: Seq<Token>, i: int) -> Result<(Seq<TailUnaryV>, int), ParseError>
    decreases ts.len() - i,
{
    match token_opt(ts, i) {
        Some(Token::Asterisk) => match unary_spec(ts, i + 1) {
            Ok((u, j)) => match term_tail_spec(ts, j) {
                Ok((rest, k)) => Ok((seq![TailUnaryV::Multiply(u)] + rest, k)),
                Err(e) => Err(e),
            },
            Err(e) => Err(e),
        },
        Some(Token::Slash) => match unary_spec(ts, i + 1) {
            Ok((u, j)) => match term_tail_spec(ts, j) {
                Ok((rest, k)) => Ok((seq![TailUnaryV::Divide(u)] + rest, k)),
                Err(e) => Err(e),
            },
            Err(e) => Err(e),
        },
        _ => Ok((Seq::empty(), i)),
    }
}

pub open spec fn is_mul_op(t: Option<Token>) -> bool {
    t == Some(Token::Asterisk) || t == Some(Token::Slash)
}

pub open spec fn is_add_op(t: Option<Token>) -> bool {
    t == Some(Token::Plus) || t == Some(Token::Minus)
}

pub open spec fn term_spec(ts: Seq<Token>, i: int) -> Result<(TermV, int), ParseError> {
    match unary_spec(ts, i) {
        Ok((u, j)) => if is_mul_op(token_opt(ts, j)) {
            match term_tail_spec(ts, j) {
                Ok((tail, k)) => Ok((TermV::WithTail(u, tail), k)),
                Err(e) => Err(e),
            }
        } else {
            Ok((TermV::SingleUnary(u), j))
        },
        Err(e) => Err(e),
    }
}

pub proof fn lemma_unary_advances(ts: Seq<Token>, i: int)
    requires
        0 <= i,
    ensures
        unary_spec(ts, i) matches Ok((_, j)) ==> i < j <= ts.len(),
{
}

pub proof fn lemma_term_tail_advances(ts: Seq<Token>, i: int)
    requires
        0 <= i,
    ensures
        term_tail_spec(ts, i) matches Ok((_, j)) ==> j == i || i < j <= ts.len(),
    decreases ts.len() - i,
{
    if let Some(t) = token_opt(ts, i) {
        if t is Asterisk || t is Slash {
            lemma_unary_advances(ts, i + 1);
            if let Ok((_, j)) = unary_spec(ts, i + 1) {
                lemma_term_tail_advances(ts, j);
            }
        }
    }
}

pub proof fn lemma_term_advances(ts: Seq<Token>, i: int)
    requires
        0 <= i,
    ensures
        term_spec(ts, i) matches Ok((_, j)) ==> i < j <= ts.len(),
{
    lemma_unary_advances(ts, i);
    if let Ok((_, j)) = unary_spec(ts, i) {
        lemma_term_tail_advances(ts, j);
    }
}

/// The `+` / `-` operations that follow an expression's first term, in order.
pub open spec fn expression_tail_spec(ts: Seq<Token>, i: int) -> Result<(Seq<TailTermV>, int), ParseError>
    decreases ts.len() - i,
    when 0 <= i
    via expression_tail_decreases
{
    match token_opt(ts, i) {
        Some(Token::Plus) => match term_spec(ts, i + 1) {
            Ok((t, j)) => match expression_tail_spec(ts, j) {
                Ok((rest, k)) => Ok((seq![TailTermV::Add(t)] + rest, k)),
                Err(e) => Err(e),
            },
            Err(e) => Err(e),
        },
        Some(Token::Minus) => match term_spec(ts, i + 1) {
            Ok((t, j)) => match expression_tail_spec(ts, j) {
                Ok((rest, k)) => Ok((seq![TailTermV::Subtract(t)] + rest, k)),
                Err(e) => Err(e),
            },
            Err(e) => Err(e),
        },
        _ => Ok((Seq::empty(), i)),
    }
}

#[via_fn]
proof fn expression_tail_decreases(ts: Seq<Token>, i: int) {
    lemma_term_advances(ts, i + 1);
}

pub open spec fn expression_spec(ts: Seq<Token>, i: int) -> Result<(ExpressionV, int), ParseError> {
    match term_spec(ts, i) {
        Ok((t, j)) => if is_add_op(token_opt(ts, j)) {
            match expression_tail_spec(ts, j) {
                Ok((tail, k)) => Ok((ExpressionV::WithTail(t, tail), k)),
                Err(e) => Err(e),
            }
        } else {
            Ok((ExpressionV::SingleTerm(t), j))
        },
        Err(e) => Err(e),
    }
}


pub proof fn lemma_expression_tail_advances(ts: Seq<Token>, i: int)
    requires
        0 <= i,
    ensures
        expression_tail_spec(ts, i) matches Ok((_, j)) ==> j == i || i < j <= ts.len(),
    decreases ts.len() - i,
{
    if let Some(t) = token_opt(ts, i) {
        if t is Plus || t is Minus {
            lemma_term_advances(ts, i + 1);
            if let Ok((_, j)) = term_spec(ts, i + 1) {
                lemma_expression_tail_advances(ts, j);
            }
        }
    }
}

pub proof fn lemma_expression_advances(ts: Seq<Token>, i: int)
    requires
        0 <= i,
    ensures
        expression_spec(ts, i) matches Ok((_, j)) ==> i < j <= ts.len(),
{
    lemma_term_advances(ts, i);
    if let Ok((_, j)) = term_spec(ts, i) {
        lemma_expression_tail_advances(ts, j);
    }
}

/// The relation a token names, if it is a comparison operator.
pub open spec fn relation_of(t: Option<Token>) -> Option<Relation> {
    match t {
        Some(Token::EqualEqual) => Some(Relation::Equal),
        Some(Token::NotEqual) => Some(Relation::NotEqual),
        Some(Token::GreaterThan) => Some(Relation::GreaterThan),
        Some(Token::GreaterThanEqual) => Some(Relation::GreaterThanEqual),
        Some(Token::LessThan) => Some(Relation::LessThan),
        Some(Token::LessThanEqual) => Some(Relation::LessThanEqual),
        _ => None,
    }
}

/// Two expressions joined by exactly one comparison operator.
pub open spec fn comparison_spec(ts: Seq<Token>, i: int) -> Result<(ComparisonV, int), ParseError> {
    match expression_spec(ts, i) {
        Ok((lhs, j)) => match relation_of(token_opt(ts, j)) {
            Some(relation) => match expression_spec(ts, j + 1) {
                Ok((rhs, k)) => Ok((ComparisonV { relation, lhs, rhs }, k)),
                Err(e) => Err(e),
            },
            None => error_at(ts, j, Expected::ComparisonOperator),
        },
        Err(e) => Err(e),
    }
}

pub proof fn lemma_comparison_advances(ts: Seq<Token>, i: int)
    requires
        0 <= i,
    ensures
        comparison_spec(ts, i) matches Ok((_, j)) ==> i < j <= ts.len(),
{
    lemma_expression_advances(ts, i);
    if let Ok((_, j)) = expression_spec(ts, i) {
        lemma_expression_advances(ts, j + 1);
    }
}

/// The tail operations of a chain of terms: the `r`-th applies the term
/// `terms[r + 1]` with the operator found at `ends[r]`, where term `r` ends.
pub open spec fn chain_tail(ts: Seq<Token>, terms: Seq<TermV>, ends: Seq<int>) -> Seq<TailTermV> {
    Seq::new(
        (terms.len() - 1) as nat,
        |r: int|
            if token_opt(ts, ends[r]) == Some(Token::Plus) {
                TailTermV::Add(terms[r + 1])
            } else {
                TailTermV::Subtract(terms[r + 1])
            },
    )
}

/// `terms[m]` is parsed from the token after the operator that ends term
/// `m - 1`, and ends at `ends[m]`; every term but the last is followed by `+`
/// or `-`, and the last by neither.
pub open spec fn term_chain(ts: Seq<Token>, terms: Seq<TermV>, ends: Seq<int>) -> bool {
    &&& terms.len() >= 1
    &&& ends.len() == terms.len()
    &&& forall|m: int|
        0 <= m < terms.len() - 1 ==> is_add_op(token_opt(ts, #[trigger] ends[m])) && term_spec(
            ts,
            ends[m] + 1,
        ) == Ok::<(TermV, int), ParseError>((terms[m + 1], ends[m + 1]))
    &&& !is_add_op(token_opt(ts, ends[terms.len() - 1]))
}

proof fn lemma_chain_tail_from(ts: Seq<Token>, terms: Seq<TermV>, ends: Seq<int>, m: int)
    requires
        term_chain(ts, terms, ends),
        0 <= m < terms.len(),
        0 <= ends[m],
    ensures
        expression_tail_spec(ts, ends[m]) == Ok::<(Seq<TailTermV>, int), ParseError>(
            (
                chain_tail(ts, terms, ends).subrange(m, terms.len() - 1),
                ends[terms.len() - 1],
            ),
        ),
    decreases terms.len() - m,
{
    let n = terms.len() - 1;
    let tail = chain_tail(ts, terms, ends);
    if m == n {
        assert(tail.subrange(m, n) =~= Seq::<TailTermV>::empty());
    } else {
        assert(is_add_op(token_opt(ts, ends[m])));
        lemma_term_advances(ts, ends[m] + 1);
        lemma_chain_tail_from(ts, terms, ends, m + 1);
        assert(tail.subrange(m, n) =~= seq![tail[m]] + tail.subrange(m + 1, n));
    }
}

/// Left associativity: terms joined by `+` / `-` parse into the first term
/// and a flat list of operations, one per operator, in source order (never
/// a nested right operand); the token after the last term is left alone.
pub proof fn lemma_expression_is_left_associative(
    ts: Seq<Token>,
    start: int,
    terms: Seq<TermV>,
    ends: Seq<int>,
)
    requires
        0 <= start,
        term_chain(ts, terms, ends),
        term_spec(ts, start) == Ok::<(TermV, int), ParseError>((terms[0], ends[0])),
    ensures
        expression_spec(ts, start) == Ok::<(ExpressionV, int), ParseError>(
            (
                if terms.len() == 1 {
                    ExpressionV::SingleTerm(terms[0])
                } else {
                    ExpressionV::WithTail(terms[0], chain_tail(ts, terms, ends))
                },
                ends[terms.len() - 1],
            ),
        ),
{
    lemma_term_advances(ts, start);
    lemma_chain_tail_from(ts, terms, ends, 0);
    let tail = chain_tail(ts, terms, ends);
    assert(tail.subrange(0, terms.len() - 1) =~= tail);
}

/// Where a list of statements stands: the whole program, or the body of an
/// `if` or of a `while`.
#[derive(Debug, Clone, Copy, PartialEq, Eq)]
pub enum Block {
    Program,
    IfBody,
    WhileBody,
}

/// The token that closes a block (none for the program: it runs to the end).
pub open spec fn closer(kind: Block) -> Option<Token> {
    match kind {
        Block::Program => None,
        Block::IfBody => Some(Token::Endif),
        Block::WhileBody => Some(Token::Endwhile),
    }
}

/// Tokens passed over between the statements of a block.
pub open spec fn skipped(kind: Block, t: Token) -> bool {
    t == Token::Newline || (kind == Block::IfBody && t == Token::Then) || (kind
        == Block::WhileBody && t == Token::Repeat)
}

/// The error for a block that the input ends inside of.
pub open spec fn unclosed(kind: Block) -> Expected {
    match kind {
        Block::WhileBody => Expected::Endwhile,
        _ => Expected::Endif,
    }
}

/// The name after a keyword, at index `i`.
pub open spec fn ident_spec(ts: Seq<Token>, i: int) -> Result<(Seq<char>, int), ParseError> {
    match token_opt(ts, i) {
        Some(Token::Identifier { name }) => Ok((name@, i + 1)),
        _ => error_at(ts, i, Expected::Identifier),
    }
}

/// One statement starting at index `i`.
pub open spec fn statement_spec(ts: Seq<Token>, i: int) -> Result<(StatementV, int), ParseError>
    decreases ts.len() - i, 0int,
    when 0 <= i
    via statement_decreases
{
    match token_opt(ts, i) {
        Some(Token::Print) => match token_opt(ts, i + 1) {
            Some(Token::String { value }) => Ok((StatementV::PrintString(value@), i + 2)),
            _ => match expression_spec(ts, i + 1) {
                Ok((e, j)) => Ok((StatementV::PrintExpression(e), j)),
                Err(e) => Err(e),
            },
        },
        Some(Token::If) => match comparison_spec(ts, i + 1) {
            Ok((comparison, j)) => match block_spec(ts, j, Block::IfBody) {
                Ok((body, k)) => Ok((StatementV::If { comparison, body }, k)),
                Err(e) => Err(e),
            },
            Err(e) => Err(e),
        },
        Some(Token::While) => match comparison_spec(ts, i + 1) {
            Ok((comparison, j)) => match block_spec(ts, j, Block::WhileBody) {
                Ok((body, k)) => Ok((StatementV::While { comparison, body }, k)),
                Err(e) => Err(e),
            },
            Err(e) => Err(e),
        },
        Some(Token::Label { .. }) => match ident_spec(ts, i + 1) {
            Ok((name, j)) => Ok((StatementV::Label(name), j)),
            Err(e) => Err(e),
        },
        Some(Token::Goto) => match ident_spec(ts, i + 1) {
            Ok((name, j)) => Ok((StatementV::Goto(name), j)),
            Err(e) => Err(e),
        },
        Some(Token::Let) => match ident_spec(ts, i + 1) {
            Ok((ident, j)) => if token_opt(ts, j) == Some(Token::Equal) {
                match expression_spec(ts, j + 1) {
                    Ok((expression, k)) => Ok((StatementV::Let { ident, expression }, k)),
                    Err(e) => Err(e),
                }
            } else {
                error_at(ts, j, Expected::Equal)
            },
            Err(e) => Err(e),
        },
        Some(Token::Input) => match ident_spec(ts, i + 1) {
            Ok((name, j)) => Ok((StatementV::Input(name), j)),
            Err(e) => Err(e),
        },
        _ => error_at(ts, i, Expected::Statement),
    }
}

/// The statements of a block starting at index `i`, up to and including its
/// closing keyword. The check `i < j <= ts.len()` never fails (a statement consumes at
/// least its keyword, see `lemma_statement_advances`); it makes the
/// termination of the recursion evident.
pub open spec fn block_spec(ts: Seq<Token>, i: int, kind: Block) -> Result<
    (Seq<StatementV>, int),
    ParseError,
>
    decreases ts.len() - i, 1int,
{
    match token_opt(ts, i) {
        None => if kind == Block::Program {
            Ok((Seq::empty(), i))
        } else {
            error_at(ts, i, unclosed(kind))
        },
        Some(t) => if Some(t) == closer(kind) {
            Ok((Seq::empty(), i + 1))
        } else if skipped(kind, t) {
            block_spec(ts, i + 1, kind)
        } else {
            match statement_spec(ts, i) {
                Ok((s, j)) => if i < j <= ts.len() {
                    match block_spec(ts, j, kind) {
                        Ok((rest, k)) => Ok((seq![s] + rest, k)),
                        Err(e) => Err(e),
                    }
                } else {
                    error_at(ts, i, Expected::Statement)
                },
                Err(e) => Err(e),
            }
        },
    }
}

#[via_fn]
proof fn statement_decreases(ts: Seq<Token>, i: int) {
    lemma_comparison_advances(ts, i + 1);
}

/// The statements of a whole token sequence.
pub open spec fn program_spec(ts: Seq<Token>) -> Result<Seq<StatementV>, ParseError> {
    match block_spec(ts, 0, Block::Program) {
        Ok((body, _)) => Ok(body),
        Err(e) => Err(e),
    }
}


/// `r` is what the parser returned and `pos` where it left the cursor; `s`
/// is the specified outcome.
pub open spec fn parsed<T: View>(r: Result<T, ParseError>, pos: int, s: Result<(T::V, int), ParseError>) -> bool {
    match s {
        Ok((v, j)) => r matches Ok(x) && x@ == v && pos == j,
        Err(e) => r == Err::<T, ParseError>(e),
    }
}

/// Puts `p` in front of the items of a successful outcome.
pub open spec fn prepend_ok<A>(p: Seq<A>, r: Result<(Seq<A>, int), ParseError>) -> Result<
    (Seq<A>, int),
    ParseError,
> {
    match r {
        Ok((rest, k)) => Ok((p + rest, k)),
        Err(e) => Err(e),
    }
}

/// The error for the token under the cursor.
fn unexpected<T>(it: &TokenIterator, expected: Expected) -> (r: Result<T, ParseError>)
    ensures
        r == Err::<T, ParseError>(
            ParseError { expected, found: token_opt(it.tokens_seq(), it.pos()) },
        ),
{
    let found = match it.peek() {
        Some(t) => Some(t.duplicate()),
        None => None,
    };
    Err(ParseError { expected, found })
}

/// Parses a number or a name.
pub fn parse_primary(it: &mut TokenIterator) -> (r: Result<Primary, ParseError>)
    ensures
        final(it).tokens_seq() == old(it).tokens_seq(),
        parsed(r, final(it).pos(), primary_spec(old(it).tokens_seq(), old(it).pos())),
{
    match it.peek() {
        Some(Token::Number { value }) => {
            let value = *value;
            it.advance();
            Ok(Primary::Number(value))
        },
        Some(Token::Identifier { name }) => {
            let name = name.clone();
            it.advance();
            Ok(Primary::Ident(name))
        },
        _ => unexpected(it, Expected::NumberOrIdentifier),
    }
}

/// Parses a primary with an optional sign; with none, the sign is `+`.
pub fn parse_unary(it: &mut TokenIterator) -> (r: Result<Unary, ParseError>)
    ensures
        final(it).tokens_seq() == old(it).tokens_seq(),
        parsed(r, final(it).pos(), unary_spec(old(it).tokens_seq(), old(it).pos())),
{
    let (signed, minus) = match it.peek() {
        Some(Token::Plus) => (true, false),
        Some(Token::Minus) => (true, true),
        _ => (false, false),
    };
    if signed {
        it.advance();
    }
    match parse_primary(it) {
        Ok(p) => if minus {
            Ok(Unary::Minus(Box::new(p)))
        } else {
            Ok(Unary::Plus(Box::new(p)))
        },
        Err(e) => Err(e),
    }
}

/// Parses a unary followed by any number of `*` / `/` operations, kept in
/// order.
pub fn parse_term(it: &mut TokenIterator) -> (r: Result<Term, ParseError>)
    ensures
        final(it).tokens_seq() == old(it).tokens_seq(),
        parsed(r, final(it).pos(), term_spec(old(it).tokens_seq(), old(it).pos())),
{
    let ghost ts = it.tokens_seq();
    let ghost i = it.pos();
    let first = match parse_unary(it) {
        Ok(u) => u,
        Err(e) => return Err(e),
    };
    proof {
        lemma_unary_advances(ts, i);
    }
    let more = match it.peek() {
        Some(Token::Asterisk) | Some(Token::Slash) => true,
        _ => false,
    };
    if !more {
        return Ok(Term::SingleUnary(Box::new(first)));
    }
    let ghost start = it.pos();
    let mut tail: Vec<TailUnary> = Vec::new();
    loop
        invariant
            it.tokens_seq() == ts,
            ts == old(it).tokens_seq(),
            i == old(it).pos(),
            0 <= i,
            start <= it.pos() <= ts.len(),
            unary_spec(ts, i) == Ok::<(UnaryV, int), ParseError>((first@, start)),
            is_mul_op(token_opt(ts, start)),
            term_tail_spec(ts, start) == prepend_ok(
                tail@.map_values(|t: TailUnary| t@),
                term_tail_spec(ts, it.pos()),
            ),
        ensures
            term_tail_spec(ts, it.pos()) == Ok::<(Seq<TailUnaryV>, int), ParseError>(
                (Seq::empty(), it.pos()),
            ),
        decreases ts.len() - it.pos(),
    {
        let (op, divide) = match it.peek() {
            Some(Token::Asterisk) => (true, false),
            Some(Token::Slash) => (true, true),
            _ => (false, false),
        };
        if !op {
            break;
        }
        let ghost at = it.pos();
        it.advance();
        proof {
            lemma_unary_advances(ts, at + 1);
        }
        let u = match parse_unary(it) {
            Ok(u) => u,
            Err(e) => return Err(e),
        };
        let ghost before = tail@.map_values(|t: TailUnary| t@);
        let item = if divide {
            TailUnary::Divide(Box::new(u))
        } else {
            TailUnary::Multiply(Box::new(u))
        };
        tail.push(item);
        proof {
            assert(tail@.map_values(|t: TailUnary| t@) =~= before.push(item@));
            match term_tail_spec(ts, it.pos()) {
                Ok((rest, k)) => {
                    assert(before + (seq![item@] + rest) =~= before.push(item@) + rest);
                },
                Err(_) => {},
            }
        }
    }
    assert(tail@.map_values(|t: TailUnary| t@) + Seq::<TailUnaryV>::empty() =~= tail@.map_values(
        |t: TailUnary| t@,
    ));
    Ok(Term::WithTail(Box::new(first), Box::new(TermTail::Tail(tail))))
}


/// Parses a term followed by any number of `+` / `-` operations, kept in
/// order: they apply left to right to the first term.
pub fn parse_expression(it: &mut TokenIterator) -> (r: Result<Expression, ParseError>)
    ensures
        final(it).tokens_seq() == old(it).tokens_seq(),
        parsed(r, final(it).pos(), expression_spec(old(it).tokens_seq(), old(it).pos())),
{
    let ghost ts = it.tokens_seq();
    let ghost i = it.pos();
    let first = match parse_term(it) {
        Ok(t) => t,
        Err(e) => return Err(e),
    };
    proof {
        lemma_term_advances(ts, i);
    }
    let more = match it.peek() {
        Some(Token::Plus) | Some(Token::Minus) => true,
        _ => false,
    };
    if !more {
        return Ok(Expression::SingleTerm(Box::new(first)));
    }
    let ghost start = it.pos();
    let mut tail: Vec<TailTerm> = Vec::new();
    loop
        invariant
            it.tokens_seq() == ts,
            ts == old(it).tokens_seq(),
            i == old(it).pos(),
            0 <= i,
            start <= it.pos() <= ts.len(),
            term_spec(ts, i) == Ok::<(TermV, int), ParseError>((first@, start)),
            is_add_op(token_opt(ts, start)),
            expression_tail_spec(ts, start) == prepend_ok(
                tail@.map_values(|t: TailTerm| t@),
                expression_tail_spec(ts, it.pos()),
            ),
        ensures
            expression_tail_spec(ts, it.pos()) == Ok::<(Seq<TailTermV>, int), ParseError>(
                (Seq::empty(), it.pos()),
            ),
        decreases ts.len() - it.pos(),
    {
        let (op, subtract) = match it.peek() {
            Some(Token::Plus) => (true, false),
            Some(Token::Minus) => (true, true),
            _ => (false, false),
        };
        if !op {
            break;
        }
        let ghost at = it.pos();
        it.advance();
        proof {
            lemma_term_advances(ts, at + 1);
        }
        let t = match parse_term(it) {
            Ok(t) => t,
            Err(e) => return Err(e),
        };
        let ghost before = tail@.map_values(|t: TailTerm| t@);
        let item = if subtract {
            TailTerm::Subtract(Box::new(t))
        } else {
            TailTerm::Add(Box::new(t))
        };
        tail.push(item);
        proof {
            assert(tail@.map_values(|t: TailTerm| t@) =~= before.push(item@));
            match expression_tail_spec(ts, it.pos()) {
                Ok((rest, k)) => {
                    assert(before + (seq![item@] + rest) =~= before.push(item@) + rest);
                },
                Err(_) => {},
            }
        }
    }
    assert(tail@.map_values(|t: TailTerm| t@) + Seq::<TailTermV>::empty() =~= tail@.map_values(
        |t: TailTerm| t@,
    ));
    Ok(Expression::WithTail(Box::new(first), Box::new(ExpressionTail::Tail(tail))))
}

/// Parses two expressions joined by exactly one comparison operator.
pub fn parse_comparison(it: &mut TokenIterator) -> (r: Result<Comparison, ParseError>)
    ensures
        final(it).tokens_seq() == old(it).tokens_seq(),
        parsed(r, final(it).pos(), comparison_spec(old(it).tokens_seq(), old(it).pos())),
{
    let lhs = match parse_expression(it) {
        Ok(e) => e,
        Err(e) => return Err(e),
    };
    // 0: none; 1 to 6: ==, !=, >, >=, <, <=
    let op: u8 = match it.peek() {
        Some(Token::EqualEqual) => 1,
        Some(Token::NotEqual) => 2,
        Some(Token::GreaterThan) => 3,
        Some(Token::GreaterThanEqual) => 4,
        Some(Token::LessThan) => 5,
        Some(Token::LessThanEqual) => 6,
        _ => 0,
    };
    if op == 0 {
        return unexpected(it, Expected::ComparisonOperator);
    }
    it.advance();
    let rhs = match parse_expression(it) {
        Ok(e) => e,
        Err(e) => return Err(e),
    };
    let (l, r) = (Box::new(lhs), Box::new(rhs));
    Ok(
        if op == 1 {
            Comparison::Equal(l, r)
        } else if op == 2 {
            Comparison::NotEqual(l, r)
        } else if op == 3 {
            Comparison::GreaterThan(l, r)
        } else if op == 4 {
            Comparison::GreaterThanEqual(l, r)
        } else if op == 5 {
            Comparison::LessThan(l, r)
        } else {
            Comparison::LessThanEqual(l, r)
        },
    )
}


pub proof fn lemma_statement_advances(ts: Seq<Token>, i: int)
    requires
        0 <= i,
    ensures
        statement_spec(ts, i) matches Ok((_, j)) ==> i < j <= ts.len(),
    decreases ts.len() - i, 0int,
{
    match token_opt(ts, i) {
        Some(Token::Print) => {
            lemma_expression_advances(ts, i + 1);
        },
        Some(Token::If) => {
            lemma_comparison_advances(ts, i + 1);
            if let Ok((_, j)) = comparison_spec(ts, i + 1) {
                lemma_block_advances(ts, j, Block::IfBody);
            }
        },
        Some(Token::While) => {
            lemma_comparison_advances(ts, i + 1);
            if let Ok((_, j)) = comparison_spec(ts, i + 1) {
                lemma_block_advances(ts, j, Block::WhileBody);
            }
        },
        Some(Token::Let) => {
            lemma_expression_advances(ts, i + 3);
        },
        _ => {},
    }
}

pub proof fn lemma_block_advances(ts: Seq<Token>, i: int, kind: Block)
    requires
        0 <= i <= ts.len(),
    ensures
        block_spec(ts, i, kind) matches Ok((_, j)) ==> i <= j <= ts.len(),
    decreases ts.len() - i, 1int,
{
    if i < ts.len() {
        let t = ts[i];
        if Some(t) == closer(kind) {
        } else if skipped(kind, t) {
            lemma_block_advances(ts, i + 1, kind);
        } else {
            lemma_statement_advances(ts, i);
            if let Ok((_, j)) = statement_spec(ts, i) {
                lemma_block_advances(ts, j, kind);
            }
        }
    }
}

/// The views of a vector of statements.
pub open spec fn stmts_of(v: Vec<Statement>) -> Seq<StatementV> {
    statements_view(v, v.len() as int)
}

pub proof fn lemma_statements_view_prefix(v: Vec<Statement>, w: Vec<Statement>, n: int)
    requires
        0 <= n <= v.len(),
        n <= w.len(),
        forall|k: int| 0 <= k < n ==> v@[k] == w@[k],
    ensures
        statements_view(v, n) == statements_view(w, n),
    decreases n,
{
    if n > 0 {
        lemma_statements_view_prefix(v, w, n - 1);
    }
}

pub proof fn lemma_stmts_of_push(v: Vec<Statement>, w: Vec<Statement>, x: Statement)
    requires
        w@ == v@.push(x),
    ensures
        stmts_of(w) == stmts_of(v).push(x@),
{
    lemma_statements_view_prefix(v, w, v.len() as int);
}

pub proof fn lemma_statements_view_index(v: Vec<Statement>, n: int)
    requires
        0 <= n <= v.len(),
    ensures
        statements_view(v, n).len() == n,
        forall|k: int| 0 <= k < n ==> #[trigger] statements_view(v, n)[k] == v@[k]@,
    decreases n,
{
    if n > 0 {
        lemma_statements_view_index(v, n - 1);
    }
}

/// Like `parsed`, for a list of statements.
pub open spec fn block_parsed(
    r: Result<Vec<Statement>, ParseError>,
    pos: int,
    s: Result<(Seq<StatementV>, int), ParseError>,
) -> bool {
    match s {
        Ok((v, j)) => r matches Ok(x) && stmts_of(x) == v && pos == j,
        Err(e) => r == Err::<Vec<Statement>, ParseError>(e),
    }
}

fn closes(kind: Block, t: &Token) -> (r: bool)
    ensures
        r == (Some(*t) == closer(kind)),
{
    match (kind, t) {
        (Block::IfBody, Token::Endif) => true,
        (Block::WhileBody, Token::Endwhile) => true,
        _ => false,
    }
}

fn skips(kind: Block, t: &Token) -> (r: bool)
    ensures
        r == skipped(kind, *t),
{
    match (kind, t) {
        (_, Token::Newline) => true,
        (Block::IfBody, Token::Then) => true,
        (Block::WhileBody, Token::Repeat) => true,
        _ => false,
    }
}

/// Parses the name that follows a keyword.
fn parse_ident(it: &mut TokenIterator) -> (r: Result<String, ParseError>)
    ensures
        final(it).tokens_seq() == old(it).tokens_seq(),
        match ident_spec(old(it).tokens_seq(), old(it).pos()) {
            Ok((n, j)) => r matches Ok(x) && x@ == n && final(it).pos() == j,
            Err(e) => r == Err::<String, ParseError>(e),
        },
{
    match it.peek() {
        Some(Token::Identifier { name }) => {
            let name = name.clone();
            it.advance();
            Ok(name)
        },
        _ => unexpected(it, Expected::Identifier),
    }
}

/// `print` followed by a string literal or an expression.
fn parse_print(it: &mut TokenIterator) -> (r: Result<Statement, ParseError>)
    requires
        token_opt(old(it).tokens_seq(), old(it).pos()) == Some(Token::Print),
    ensures
        final(it).tokens_seq() == old(it).tokens_seq(),
        parsed(r, final(it).pos(), statement_spec(old(it).tokens_seq(), old(it).pos())),
{
    it.advance();
    let text = match it.peek() {
        Some(Token::String { value }) => Some(value.clone()),
        _ => None,
    };
    match text {
        Some(value) => {
            it.advance();
            Ok(Statement::PrintString(value))
        },
        None => match parse_expression(it) {
            Ok(e) => Ok(Statement::PrintExpression(Box::new(e))),
            Err(e) => Err(e),
        },
    }
}

/// `if` or `while`: a comparison and a body.
fn parse_conditional(it: &mut TokenIterator) -> (r: Result<Statement, ParseError>)
    requires
        token_opt(old(it).tokens_seq(), old(it).pos()) == Some(Token::If) || token_opt(
            old(it).tokens_seq(),
            old(it).pos(),
        ) == Some(Token::While),
    ensures
        final(it).tokens_seq() == old(it).tokens_seq(),
        parsed(r, final(it).pos(), statement_spec(old(it).tokens_seq(), old(it).pos())),
    decreases old(it).tokens_seq().len() - old(it).pos(), 0int,
{
    let ghost ts = it.tokens_seq();
    let ghost i = it.pos();
    let is_if = match it.peek() {
        Some(Token::If) => true,
        _ => false,
    };
    it.advance();
    let comparison = match parse_comparison(it) {
        Ok(c) => c,
        Err(e) => return Err(e),
    };
    proof {
        lemma_comparison_advances(ts, i + 1);
    }
    let kind = if is_if {
        Block::IfBody
    } else {
        Block::WhileBody
    };
    let body = match parse_block(it, kind) {
        Ok(b) => b,
        Err(e) => return Err(e),
    };
    if is_if {
        Ok(Statement::If { comparison, body })
    } else {
        Ok(Statement::While { comparison, body })
    }
}

/// `let`, a name, `=` and an expression.
fn parse_let(it: &mut TokenIterator) -> (r: Result<Statement, ParseError>)
    requires
        token_opt(old(it).tokens_seq(), old(it).pos()) == Some(Token::Let),
    ensures
        final(it).tokens_seq() == old(it).tokens_seq(),
        parsed(r, final(it).pos(), statement_spec(old(it).tokens_seq(), old(it).pos())),
{
    it.advance();
    let ident = match parse_ident(it) {
        Ok(n) => n,
        Err(e) => return Err(e),
    };
    let equal = match it.peek() {
        Some(Token::Equal) => true,
        _ => false,
    };
    if !equal {
        return unexpected(it, Expected::Equal);
    }
    it.advance();
    match parse_expression(it) {
        Ok(expression) => Ok(Statement::Let { ident, expression }),
        Err(e) => Err(e),
    }
}

/// `label`, `goto` or `input`, and a name.
fn parse_named(it: &mut TokenIterator) -> (r: Result<Statement, ParseError>)
    requires
        token_opt(old(it).tokens_seq(), old(it).pos()) matches Some(t) && (t is Label || t is Goto
            || t is Input),
    ensures
        final(it).tokens_seq() == old(it).tokens_seq(),
        parsed(r, final(it).pos(), statement_spec(old(it).tokens_seq(), old(it).pos())),
{
    // 0: label, 1: goto, 2: input
    let which: u8 = match it.peek() {
        Some(Token::Label { .. }) => 0,
        Some(Token::Goto) => 1,
        _ => 2,
    };
    it.advance();
    let name = match parse_ident(it) {
        Ok(n) => n,
        Err(e) => return Err(e),
    };
    if which == 0 {
        Ok(Statement::Label(name))
    } else if which == 1 {
        Ok(Statement::Goto(name))
    } else {
        Ok(Statement::Input(name))
    }
}

/// Parses one statement.
pub fn parse_statement(it: &mut TokenIterator) -> (r: Result<Statement, ParseError>)
    ensures
        final(it).tokens_seq() == old(it).tokens_seq(),
        parsed(r, final(it).pos(), statement_spec(old(it).tokens_seq(), old(it).pos())),
        r is Ok ==> old(it).pos() < final(it).pos() <= old(it).tokens_seq().len(),
    decreases old(it).tokens_seq().len() - old(it).pos(), 1int,
{
    let ghost ts = it.tokens_seq();
    let ghost i = it.pos();
    let r = match it.peek() {
        Some(Token::Print) => parse_print(it),
        Some(Token::If) | Some(Token::While) => parse_conditional(it),
        Some(Token::Let) => parse_let(it),
        Some(Token::Label { .. }) | Some(Token::Goto) | Some(Token::Input) => parse_named(it),
        _ => unexpected(it, Expected::Statement),
    };
    proof {
        lemma_statement_advances(ts, i);
    }
    r
}

/// Parses the statements of a block, up to and including its closing
/// keyword (for the program: up to the end of the tokens).
pub fn parse_block(it: &mut TokenIterator, kind: Block) -> (r: Result<Vec<Statement>, ParseError>)
    ensures
        final(it).tokens_seq() == old(it).tokens_seq(),
        block_parsed(r, final(it).pos(), block_spec(old(it).tokens_seq(), old(it).pos(), kind)),
        0 <= old(it).pos() <= old(it).tokens_seq().len(),
    decreases old(it).tokens_seq().len() - old(it).pos(), 2int,
{
    let ghost ts = it.tokens_seq();
    let ghost start = it.pos();
    let mut body: Vec<Statement> = Vec::new();
    // brings in that the cursor stands within its sequence
    let _ = it.peek();
    loop
        invariant
            it.tokens_seq() == ts,
            ts == old(it).tokens_seq(),
            start == old(it).pos(),
            0 <= start <= it.pos() <= ts.len(),
            block_spec(ts, start, kind) == prepend_ok(stmts_of(body), block_spec(ts, it.pos(), kind)),
        decreases ts.len() - it.pos(),
    {
        // 0: end of input; 1: closing keyword; 2: skipped; 3: a statement
        let action: u8 = match it.peek() {
            None => 0,
            Some(t) => if closes(kind, t) {
                1
            } else if skips(kind, t) {
                2
            } else {
                3
            },
        };
        if action == 0 {
            assert(stmts_of(body) + Seq::<StatementV>::empty() =~= stmts_of(body));
            return match kind {
                Block::Program => Ok(body),
                Block::IfBody => unexpected(it, Expected::Endif),
                Block::WhileBody => unexpected(it, Expected::Endwhile),
            };
        } else if action == 1 {
            it.advance();
            assert(stmts_of(body) + Seq::<StatementV>::empty() =~= stmts_of(body));
            return Ok(body);
        } else if action == 2 {
            it.advance();
        } else {
            let ghost at = it.pos();
            let s = match parse_statement(it) {
                Ok(s) => s,
                Err(e) => return Err(e),
            };
            let ghost before = body;
            body.push(s);
            proof {
                lemma_stmts_of_push(before, body, s);
                match block_spec(ts, it.pos(), kind) {
                    Ok((rest, k)) => {
                        assert(stmts_of(before) + (seq![s@] + rest) =~= stmts_of(before).push(s@)
                            + rest);
                    },
                    Err(_) => {},
                }
            }
        }
    }
}

/// The program block only ends where the tokens do.
pub proof fn lemma_program_reaches_end(ts: Seq<Token>, i: int)
    requires
        0 <= i <= ts.len(),
    ensures
        block_spec(ts, i, Block::Program) matches Ok((_, j)) ==> j == ts.len(),
    decreases ts.len() - i,
{
    if let Some(t) = token_opt(ts, i) {
        if skipped(Block::Program, t) {
            lemma_program_reaches_end(ts, i + 1);
        } else if let Ok((_, j)) = statement_spec(ts, i) {
            if i < j <= ts.len() {
                lemma_program_reaches_end(ts, j);
            }
        }
    }
}

/// Parses a whole program from the cursor's position to the end of its
/// tokens; on success the cursor has used up every token.
pub fn parse(tokens: &mut TokenIterator) -> (r: Result<AST, ParseError>)
    ensures
        final(tokens).tokens_seq() == old(tokens).tokens_seq(),
        match block_spec(old(tokens).tokens_seq(), old(tokens).pos(), Block::Program) {
            Ok((body, _)) => r matches Ok(ast) && ast@ == body,
            Err(e) => r == Err::<AST, ParseError>(e),
        },
        r is Ok ==> final(tokens).pos() == final(tokens).tokens_seq().len(),
{
    let ghost ts = tokens.tokens_seq();
    let ghost i = tokens.pos();
    let r = parse_block(tokens, Block::Program);
    proof {
        lemma_program_reaches_end(ts, i);
    }
    match r {
        Ok(statements) => Ok(AST::Program(statements)),
        Err(e) => Err(e),
    }
}


/// A primary with no sign in front parses as a `+` unary around it.
pub proof fn lemma_unsigned_primary_is_plus(ts: Seq<Token>, i: int)
    requires
        token_opt(ts, i) matches Some(t) && (t is Number || t is Identifier),
    ensures
        primary_spec(ts, i) matches Ok((p, j)) && j == i + 1 && unary_spec(ts, i) == Ok::<
            (UnaryV, int),
            ParseError,
        >((UnaryV::Plus(p), i + 1)),
{
}

/// A successful `if` / `while` body ends by consuming its own closing
/// keyword.
proof fn lemma_block_ends_with_closer(ts: Seq<Token>, i: int, kind: Block)
    requires
        0 <= i,
        kind != Block::Program,
    ensures
        block_spec(ts, i, kind) matches Ok((_, j)) ==> 1 <= j <= ts.len() && Some(ts[j - 1])
            == closer(kind),
    decreases ts.len() - i,
{
    if let Some(t) = token_opt(ts, i) {
        if Some(t) == closer(kind) {
        } else if skipped(kind, t) {
            lemma_block_ends_with_closer(ts, i + 1, kind);
        } else if let Ok((_, j)) = statement_spec(ts, i) {
            if i < j <= ts.len() {
                lemma_block_ends_with_closer(ts, j, kind);
            }
        }
    }
}

/// An `if` / `while` body with no closing keyword after it is an error.
proof fn lemma_unclosed_block_fails(ts: Seq<Token>, i: int, kind: Block)
    requires
        0 <= i,
        kind != Block::Program,
        forall|k: int| i <= k < ts.len() ==> Some(#[trigger] ts[k]) != closer(kind),
    ensures
        block_spec(ts, i, kind) is Err,
    decreases ts.len() - i,
{
    if let Some(t) = token_opt(ts, i) {
        if skipped(kind, t) {
            lemma_unclosed_block_fails(ts, i + 1, kind);
        } else if let Ok((_, j)) = statement_spec(ts, i) {
            if i < j <= ts.len() {
                lemma_unclosed_block_fails(ts, j, kind);
            }
        }
    }
}

/// Balanced nesting: an `if` that parses ends with the `endif` it consumed,
/// and a `while` with the `endwhile`; an `if` / `while` with no closing
/// keyword anywhere after it is a parse error, never a truncated body.
pub proof fn lemma_balanced_nesting(ts: Seq<Token>, i: int)
    requires
        0 <= i,
    ensures
        statement_spec(ts, i) matches Ok((StatementV::If { .. }, k)) ==> 1 <= k <= ts.len()
            && ts[k - 1] == Token::Endif,
        statement_spec(ts, i) matches Ok((StatementV::While { .. }, k)) ==> 1 <= k <= ts.len()
            && ts[k - 1] == Token::Endwhile,
        token_opt(ts, i) == Some(Token::If) && (forall|k: int|
            i < k < ts.len() ==> #[trigger] ts[k] != Token::Endif) ==> statement_spec(ts, i) is Err,
        token_opt(ts, i) == Some(Token::While) && (forall|k: int|
            i < k < ts.len() ==> #[trigger] ts[k] != Token::Endwhile) ==> statement_spec(ts, i) is Err,
{
    lemma_comparison_advances(ts, i + 1);
    if let Ok((_, j)) = comparison_spec(ts, i + 1) {
        lemma_block_ends_with_closer(ts, j, Block::IfBody);
        lemma_block_ends_with_closer(ts, j, Block::WhileBody);
        if token_opt(ts, i) == Some(Token::If) && (forall|k: int|
            i < k < ts.len() ==> #[trigger] ts[k] != Token::Endif) {
            lemma_unclosed_block_fails(ts, j, Block::IfBody);
        }
        if token_opt(ts, i) == Some(Token::While) && (forall|k: int|
            i < k < ts.len() ==> #[trigger] ts[k] != Token::Endwhile) {
            lemma_unclosed_block_fails(ts, j, Block::WhileBody);
        }
    }
}

} // verus!

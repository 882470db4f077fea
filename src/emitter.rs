//! Lowering of a parsed program to C source lines.
//!
//! Emission runs in two passes. The first walks every statement, nested bodies
//! included, in program order, and collects the names assigned by `let` or
//! `input` (declared once each, as `int` variables set to zero), the declared
//! labels, and the `goto` targets. A `goto` whose target is never declared is
//! an error, and nothing is emitted. The second pass writes a fixed preamble,
//! the declarations, the statements (four spaces of indentation per level of
//! nesting), and a fixed epilogue. Expressions are written fully
//! parenthesized, one pair per unary or binary operation, so that the C
//! compiler evaluates them in the order the source gives.
use crate::parser::{
    lemma_statements_view_index, stmts_of, Comparison, ComparisonV, Expression, ExpressionTail,
    Primary, Statement, TailTerm, TailUnary, Term, TermTail, Unary, ExpressionV, PrimaryV, Relation, StatementV, TailTermV, TailUnaryV,
    TermV, UnaryV,
};
use vstd::prelude::*;
use vstd::string::*;

verus! {

broadcast use vstd::seq::group_seq_axioms, vstd::std_specs::vec::group_vec_axioms;

/// Why emission failed.
#[derive(Debug, Clone, PartialEq)]
pub enum EmitError {
    /// A `goto` names a label that the program never declares.
    DanglingLabel { name: String },
}

/// The digit for `d`, below ten.
pub open spec fn digit_text(d: int) -> Seq<char> {
    "0123456789"@.subrange(d, d + 1)
}

/// The decimal digits of `n`.
pub open spec fn decimal(n: nat) -> Seq<char>
    decreases n,
{
    if n < 10 {
        digit_text(n as int)
    } else {
        decimal(n / 10) + digit_text((n % 10) as int)
    }
}

/// An integer literal; a negative one is put in parentheses.
pub open spec fn number_text(n: i32) -> Seq<char> {
    if n < 0 {
        "(-"@ + decimal((-n) as nat) + ")"@
    } else {
        decimal(n as nat)
    }
}

pub open spec fn primary_text(p: PrimaryV) -> Seq<char> {
    match p {
        PrimaryV::Number(n) => number_text(n),
        PrimaryV::Ident(name) => name,
    }
}

pub open spec fn unary_text(u: UnaryV) -> Seq<char> {
    match u {
        UnaryV::Plus(p) => "(+"@ + primary_text(p) + ")"@,
        UnaryV::Minus(p) => "(-"@ + primary_text(p) + ")"@,
    }
}

/// Applies the `*` / `/` operations of `tail`, left to right, to `acc`.
pub open spec fn mul_chain(acc: Seq<char>, tail: Seq<TailUnaryV>) -> Seq<char>
    decreases tail.len(),
{
    if tail.len() == 0 {
        acc
    } else {
        let next = match tail[0] {
            TailUnaryV::Multiply(u) => "("@ + acc + " * "@ + unary_text(u) + ")"@,
            TailUnaryV::Divide(u) => "("@ + acc + " / "@ + unary_text(u) + ")"@,
        };
        mul_chain(next, tail.drop_first())
    }
}

pub open spec fn term_text(t: TermV) -> Seq<char> {
    match t {
        TermV::SingleUnary(u) => unary_text(u),
        TermV::WithTail(u, tail) => mul_chain(unary_text(u), tail),
    }
}

/// Applies the `+` / `-` operations of `tail`, left to right, to `acc`.
pub open spec fn add_chain(acc: Seq<char>, tail: Seq<TailTermV>) -> Seq<char>
    decreases tail.len(),
{
    if tail.len() == 0 {
        acc
    } else {
        let next = match tail[0] {
            TailTermV::Add(t) => "("@ + acc + " + "@ + term_text(t) + ")"@,
            TailTermV::Subtract(t) => "("@ + acc + " - "@ + term_text(t) + ")"@,
        };
        add_chain(next, tail.drop_first())
    }
}

pub open spec fn expression_text(e: ExpressionV) -> Seq<char> {
    match e {
        ExpressionV::SingleTerm(t) => term_text(t),
        ExpressionV::WithTail(t, tail) => add_chain(term_text(t), tail),
    }
}

pub open spec fn relation_text(r: Relation) -> Seq<char> {
    match r {
        Relation::Equal => " == "@,
        Relation::NotEqual => " != "@,
        Relation::GreaterThan => " > "@,
        Relation::GreaterThanEqual => " >= "@,
        Relation::LessThan => " < "@,
        Relation::LessThanEqual => " <= "@,
    }
}

pub open spec fn comparison_text(c: ComparisonV) -> Seq<char> {
    "("@ + expression_text(c.lhs) + relation_text(c.relation) + expression_text(c.rhs) + ")"@
}

/// The lines of one statement, each starting with `indent`.
pub open spec fn statement_lines(s: StatementV, indent: Seq<char>) -> Seq<Seq<char>>
    decreases s, 0int,
{
    match s {
        StatementV::PrintString(text) => seq![indent + "printf(\""@ + text + "\\n\");"@],
        StatementV::PrintExpression(e) => seq![
            indent + "printf(\"%d\\n\", "@ + expression_text(e) + ");"@,
        ],
        StatementV::If { comparison, body } => seq![
            indent + "if "@ + comparison_text(comparison) + " {"@,
        ] + block_lines(body, body.len() as int, indent + "    "@) + seq![indent + "}"@],
        StatementV::While { comparison, body } => seq![
            indent + "while "@ + comparison_text(comparison) + " {"@,
        ] + block_lines(body, body.len() as int, indent + "    "@) + seq![indent + "}"@],
        StatementV::Label(name) => seq![indent + name + ":;"@],
        StatementV::Goto(name) => seq![indent + "goto "@ + name + ";"@],
        StatementV::Let { ident, expression } => seq![
            indent + ident + " = "@ + expression_text(expression) + ";"@,
        ],
        StatementV::Input(name) => seq![indent + "scanf(\"%d\", &"@ + name + ");"@],
    }
}

/// The lines of the first `n` statements of `ss`, in order.
pub open spec fn block_lines(ss: Seq<StatementV>, n: int, indent: Seq<char>) -> Seq<Seq<char>>
    decreases ss, n,
{
    if n <= 0 || n > ss.len() {
        Seq::empty()
    } else {
        block_lines(ss, n - 1, indent) + statement_lines(ss[n - 1], indent)
    }
}

/// A statement followed by every statement nested in it, in program order.
pub open spec fn flatten_statement(s: StatementV) -> Seq<StatementV>
    decreases s, 0int,
{
    match s {
        StatementV::If { body, .. } => seq![s] + flatten(body, body.len() as int),
        StatementV::While { body, .. } => seq![s] + flatten(body, body.len() as int),
        _ => seq![s],
    }
}

/// Every statement of the first `n` of `ss`, nested ones included, in program
/// order.
pub open spec fn flatten(ss: Seq<StatementV>, n: int) -> Seq<StatementV>
    decreases ss, n,
{
    if n <= 0 || n > ss.len() {
        Seq::empty()
    } else {
        flatten(ss, n - 1) + flatten_statement(ss[n - 1])
    }
}

/// Every statement of a program, nested ones included, in program order.
pub open spec fn all_statements(p: Seq<StatementV>) -> Seq<StatementV> {
    flatten(p, p.len() as int)
}

/// The name that a statement declares as a label, if any.
pub open spec fn label_name(s: StatementV) -> Option<Seq<char>> {
    match s {
        StatementV::Label(name) => Some(name),
        _ => None,
    }
}

/// The label that a statement jumps to, if any.
pub open spec fn goto_target(s: StatementV) -> Option<Seq<char>> {
    match s {
        StatementV::Goto(name) => Some(name),
        _ => None,
    }
}

/// The names that `pick` finds in the statements of `f`, in order.
pub open spec fn names_in(f: Seq<StatementV>, pick: spec_fn(StatementV) -> Option<Seq<char>>) -> Seq<
    Seq<char>,
>
    decreases f.len(),
{
    if f.len() == 0 {
        Seq::empty()
    } else {
        match pick(f.last()) {
            Some(name) => names_in(f.drop_last(), pick).push(name),
            None => names_in(f.drop_last(), pick),
        }
    }
}

/// The names that the labels of `f` declare, in order.
pub open spec fn labels_in(f: Seq<StatementV>) -> Seq<Seq<char>> {
    names_in(f, |s: StatementV| label_name(s))
}

/// The targets of the `goto`s of `f`, in order.
pub open spec fn gotos_in(f: Seq<StatementV>) -> Seq<Seq<char>> {
    names_in(f, |s: StatementV| goto_target(s))
}

/// The name that a statement assigns, if any.
pub open spec fn assigned(s: StatementV) -> Option<Seq<char>> {
    match s {
        StatementV::Let { ident, .. } => Some(ident),
        StatementV::Input(name) => Some(name),
        _ => None,
    }
}

/// The names assigned in `f`, each once, in order of first assignment.
pub open spec fn variables_in(f: Seq<StatementV>) -> Seq<Seq<char>>
    decreases f.len(),
{
    if f.len() == 0 {
        Seq::empty()
    } else {
        let before = variables_in(f.drop_last());
        match assigned(f.last()) {
            Some(name) => if before.contains(name) {
                before
            } else {
                before.push(name)
            },
            None => before,
        }
    }
}

/// The first of `targets` that is not among `labels`.
pub open spec fn first_missing(targets: Seq<Seq<char>>, labels: Seq<Seq<char>>) -> Option<
    Seq<char>,
>
    decreases targets.len(),
{
    if targets.len() == 0 {
        None
    } else if !labels.contains(targets[0]) {
        Some(targets[0])
    } else {
        first_missing(targets.drop_first(), labels)
    }
}

/// The first `goto` of a program, in program order, whose label the program
/// never declares.
pub open spec fn dangling_label(p: Seq<StatementV>) -> Option<Seq<char>> {
    first_missing(gotos_in(all_statements(p)), labels_in(all_statements(p)))
}

/// One declaration per variable, each set to zero.
pub open spec fn declarations(vars: Seq<Seq<char>>) -> Seq<Seq<char>> {
    vars.map_values(|v: Seq<char>| "int "@ + v + " = 0;"@)
}

pub open spec fn preamble() -> Seq<Seq<char>> {
    seq!["#include <stdio.h>"@, "int main(void){\n"@]
}

pub open spec fn epilogue() -> Seq<Seq<char>> {
    seq!["return 0;"@, "}"@]
}

/// The C source of a program, line by line, or the dangling label that
/// prevents it.
pub open spec fn emit_spec(p: Seq<StatementV>) -> Result<Seq<Seq<char>>, Seq<char>> {
    match dangling_label(p) {
        Some(name) => Err(name),
        None => Ok(
            preamble() + declarations(variables_in(all_statements(p))) + block_lines(
                p,
                p.len() as int,
                Seq::empty(),
            ) + epilogue(),
        ),
    }
}


fn digit_string(d: u32) -> (r: String)
    requires
        d < 10,
    ensures
        r@ == digit_text(d as int),
{
    proof {
        reveal_strlit("0123456789");
    }
    String::from_str("0123456789".substring_char(d as usize, d as usize + 1))
}

fn decimal_string(n: u32) -> (r: String)
    ensures
        r@ == decimal(n as nat),
    decreases n,
{
    if n < 10 {
        digit_string(n)
    } else {
        let mut s = decimal_string(n / 10);
        let d = digit_string(n % 10);
        s.append(d.as_str());
        s
    }
}

fn number_string(n: i32) -> (r: String)
    ensures
        r@ == number_text(n),
{
    if n < 0 {
        let magnitude = (0 - n as i64) as u32;
        let mut s = String::from_str("(-");
        s.append(decimal_string(magnitude).as_str());
        s.append(")");
        s
    } else {
        decimal_string(n as u32)
    }
}

fn primary_string(p: &Primary) -> (r: String)
    ensures
        r@ == primary_text(p@),
{
    match p {
        Primary::Number(n) => number_string(*n),
        Primary::Ident(name) => name.clone(),
    }
}

/// A signed primary, in parentheses.
fn print_unary(unary: &Unary) -> (r: String)
    ensures
        r@ == unary_text(unary@),
{
    let (sign, p) = match unary {
        Unary::Plus(p) => ("(+", p),
        Unary::Minus(p) => ("(-", p),
    };
    let mut s = String::from_str(sign);
    s.append(primary_string(p).as_str());
    s.append(")");
    s
}

fn term_string(t: &Term) -> (r: String)
    ensures
        r@ == term_text(t@),
{
    match t {
        Term::SingleUnary(u) => print_unary(u),
        Term::WithTail(u, tail) => {
            let TermTail::Tail(v) = &**tail;
            let ghost items = v@.map_values(|x: TailUnary| x@);
            let mut acc = print_unary(u);
            let mut k: usize = 0;
            assert(items.subrange(0, items.len() as int) =~= items);
            while k < v.len()
                invariant
                    items == v@.map_values(|x: TailUnary| x@),
                    k <= v@.len(),
                    mul_chain(unary_text((**u)@), items) == mul_chain(
                        acc@,
                        items.subrange(k as int, items.len() as int),
                    ),
                decreases v@.len() - k,
            {
                let (op, x) = match &v[k] {
                    TailUnary::Multiply(x) => (" * ", x),
                    TailUnary::Divide(x) => (" / ", x),
                };
                let mut next = String::from_str("(");
                next.append(acc.as_str());
                next.append(op);
                next.append(print_unary(x).as_str());
                next.append(")");
                proof {
                    let rest = items.subrange(k as int, items.len() as int);
                    assert(rest.drop_first() =~= items.subrange(k + 1, items.len() as int));
                    assert(rest[0] == v@[k as int]@);
                }
                acc = next;
                k = k + 1;
            }
            assert(items.subrange(k as int, items.len() as int) =~= Seq::<TailUnaryV>::empty());
            acc
        },
    }
}

fn expression_string(e: &Expression) -> (r: String)
    ensures
        r@ == expression_text(e@),
{
    match e {
        Expression::SingleTerm(t) => term_string(t),
        Expression::WithTail(t, tail) => {
            let ExpressionTail::Tail(v) = &**tail;
            let ghost items = v@.map_values(|x: TailTerm| x@);
            let mut acc = term_string(t);
            let mut k: usize = 0;
            assert(items.subrange(0, items.len() as int) =~= items);
            while k < v.len()
                invariant
                    items == v@.map_values(|x: TailTerm| x@),
                    k <= v@.len(),
                    add_chain(term_text((**t)@), items) == add_chain(
                        acc@,
                        items.subrange(k as int, items.len() as int),
                    ),
                decreases v@.len() - k,
            {
                let (op, x) = match &v[k] {
                    TailTerm::Add(x) => (" + ", x),
                    TailTerm::Subtract(x) => (" - ", x),
                };
                let mut next = String::from_str("(");
                next.append(acc.as_str());
                next.append(op);
                next.append(term_string(x).as_str());
                next.append(")");
                proof {
                    let rest = items.subrange(k as int, items.len() as int);
                    assert(rest.drop_first() =~= items.subrange(k + 1, items.len() as int));
                    assert(rest[0] == v@[k as int]@);
                }
                acc = next;
                k = k + 1;
            }
            assert(items.subrange(k as int, items.len() as int) =~= Seq::<TailTermV>::empty());
            acc
        },
    }
}

fn comparison_string(c: &Comparison) -> (r: String)
    ensures
        r@ == comparison_text(c@),
{
    let (lhs, op, rhs) = match c {
        Comparison::Equal(l, r) => (l, " == ", r),
        Comparison::NotEqual(l, r) => (l, " != ", r),
        Comparison::GreaterThan(l, r) => (l, " > ", r),
        Comparison::GreaterThanEqual(l, r) => (l, " >= ", r),
        Comparison::LessThan(l, r) => (l, " < ", r),
        Comparison::LessThanEqual(l, r) => (l, " <= ", r),
    };
    let mut s = String::from_str("(");
    s.append(expression_string(lhs).as_str());
    s.append(op);
    s.append(expression_string(rhs).as_str());
    s.append(")");
    s
}


/// The texts of a sequence of strings.
pub open spec fn texts(v: Seq<String>) -> Seq<Seq<char>> {
    v.map_values(|s: String| s@)
}

fn push_line(out: &mut Vec<String>, line: String)
    ensures
        texts(final(out)@) == texts(old(out)@).push(line@),
{
    out.push(line);
    assert(texts(out@) =~= texts(old(out)@).push(line@));
}

/// Appends the lines of one statement to `out`.
fn emit_statement(s: &Statement, indent: &String, out: &mut Vec<String>)
    ensures
        texts(final(out)@) == texts(old(out)@) + statement_lines(s@, indent@),
    decreases s, 0int,
{
    let ghost start = texts(out@);
    match s {
        Statement::PrintString(text) => {
            let mut line = indent.clone();
            line.append("printf(\"");
            line.append(text.as_str());
            line.append("\\n\");");
            push_line(out, line);
        },
        Statement::PrintExpression(e) => {
            let mut line = indent.clone();
            line.append("printf(\"%d\\n\", ");
            line.append(expression_string(e).as_str());
            line.append(");");
            push_line(out, line);
        },
        Statement::If { comparison, body } => {
            emit_conditional("if ", comparison, body, indent, out);
            assert(stmts_of(*body).len() == body@.len()) by {
                lemma_statements_view_index(*body, body@.len() as int);
            }
            assert(texts(out@) =~= start + statement_lines(s@, indent@));
        },
        Statement::While { comparison, body } => {
            emit_conditional("while ", comparison, body, indent, out);
            assert(stmts_of(*body).len() == body@.len()) by {
                lemma_statements_view_index(*body, body@.len() as int);
            }
            assert(texts(out@) =~= start + statement_lines(s@, indent@));
        },
        Statement::Label(name) => {
            let mut line = indent.clone();
            line.append(name.as_str());
            line.append(":;");
            push_line(out, line);
        },
        Statement::Goto(name) => {
            let mut line = indent.clone();
            line.append("goto ");
            line.append(name.as_str());
            line.append(";");
            push_line(out, line);
        },
        Statement::Let { ident, expression } => {
            let mut line = indent.clone();
            line.append(ident.as_str());
            line.append(" = ");
            line.append(expression_string(expression).as_str());
            line.append(";");
            push_line(out, line);
        },
        Statement::Input(name) => {
            let mut line = indent.clone();
            line.append("scanf(\"%d\", &");
            line.append(name.as_str());
            line.append(");");
            push_line(out, line);
        },
    }
}

/// Appends an `if` or a `while`: its head line, its body one level deeper,
/// and the closing brace.
fn emit_conditional(
    keyword: &str,
    comparison: &Comparison,
    body: &Vec<Statement>,
    indent: &String,
    out: &mut Vec<String>,
)
    ensures
        texts(final(out)@) == texts(old(out)@) + seq![
            indent@ + keyword@ + comparison_text(comparison@) + " {"@,
        ] + block_lines(stmts_of(*body), body@.len() as int, indent@ + "    "@) + seq![
            indent@ + "}"@,
        ],
    decreases body, 2int,
{
    let mut line = indent.clone();
    line.append(keyword);
    line.append(comparison_string(comparison).as_str());
    line.append(" {");
    push_line(out, line);
    let mut inner = indent.clone();
    inner.append("    ");
    emit_block(body, &inner, out);
    let mut close = indent.clone();
    close.append("}");
    push_line(out, close);
}

/// Appends the lines of a list of statements to `out`.
fn emit_block(ss: &Vec<Statement>, indent: &String, out: &mut Vec<String>)
    ensures
        texts(final(out)@) == texts(old(out)@) + block_lines(
            stmts_of(*ss),
            ss@.len() as int,
            indent@,
        ),
    decreases ss, 1int,
{
    proof {
        lemma_statements_view_index(*ss, ss@.len() as int);
    }
    let ghost start = texts(out@);
    let mut k: usize = 0;
    while k < ss.len()
        invariant
            k <= ss@.len(),
            stmts_of(*ss).len() == ss@.len(),
            forall|j: int| 0 <= j < ss@.len() ==> #[trigger] stmts_of(*ss)[j] == ss@[j]@,
            texts(out@) == start + block_lines(stmts_of(*ss), k as int, indent@),
        decreases ss@.len() - k,
    {
        emit_statement(&ss[k], indent, out);
        proof {
            assert(start + block_lines(stmts_of(*ss), k as int, indent@) + statement_lines(
                ss@[k as int]@,
                indent@,
            ) =~= start + block_lines(stmts_of(*ss), k + 1, indent@));
        }
        k = k + 1;
    }
}


/// Whether `name` is among `v`.
fn contains_name(v: &Vec<String>, name: &String) -> (r: bool)
    ensures
        r == texts(v@).contains(name@),
{
    let mut k: usize = 0;
    while k < v.len()
        invariant
            k <= v@.len(),
            forall|j: int| 0 <= j < k ==> texts(v@)[j] != name@,
        decreases v@.len() - k,
    {
        if v[k] == *name {
            assert(texts(v@)[k as int] == name@);
            return true;
        }
        k = k + 1;
    }
    false
}

/// What the first pass gathers.
struct Collected {
    labels: Vec<String>,
    gotos: Vec<String>,
    variables: Vec<String>,
}

/// `c` holds what the statements `f` declare, jump to and assign.
spec fn gathered(c: Collected, f: Seq<StatementV>) -> bool {
    &&& texts(c.labels@) == labels_in(f)
    &&& texts(c.gotos@) == gotos_in(f)
    &&& texts(c.variables@) == variables_in(f)
}

/// Records what one statement declares, jumps to or assigns, not looking
/// inside it.
fn note_statement(s: &Statement, c: &mut Collected, Ghost(f): Ghost<Seq<StatementV>>)
    requires
        gathered(*old(c), f),
    ensures
        gathered(*final(c), f.push(s@)),
{
    let ghost g = f.push(s@);
    assert(g.drop_last() =~= f);
    match s {
        Statement::Label(name) => {
            push_line(&mut c.labels, name.clone());
        },
        Statement::Goto(name) => {
            push_line(&mut c.gotos, name.clone());
        },
        Statement::Let { ident: name, .. } | Statement::Input(name) => {
            if !contains_name(&c.variables, name) {
                push_line(&mut c.variables, name.clone());
            }
        },
        _ => {},
    }
}

/// Records a statement and everything nested in it, in program order.
fn collect_statement(s: &Statement, c: &mut Collected, Ghost(f): Ghost<Seq<StatementV>>)
    requires
        gathered(*old(c), f),
    ensures
        gathered(*final(c), f + flatten_statement(s@)),
    decreases s, 0int,
{
    note_statement(s, c, Ghost(f));
    match s {
        Statement::If { body, .. } | Statement::While { body, .. } => {
            proof {
                lemma_statements_view_index(*body, body@.len() as int);
            }
            collect_block(body, c, Ghost(f.push(s@)));
            assert(f.push(s@) + flatten(stmts_of(*body), body@.len() as int) =~= f
                + flatten_statement(s@));
        },
        _ => {
            assert(f.push(s@) =~= f + flatten_statement(s@));
        },
    }
}

/// Records a list of statements and everything nested in them.
fn collect_block(ss: &Vec<Statement>, c: &mut Collected, Ghost(f): Ghost<Seq<StatementV>>)
    requires
        gathered(*old(c), f),
    ensures
        gathered(*final(c), f + flatten(stmts_of(*ss), ss@.len() as int)),
    decreases ss, 1int,
{
    proof {
        lemma_statements_view_index(*ss, ss@.len() as int);
    }
    let mut k: usize = 0;
    assert(f + flatten(stmts_of(*ss), 0) =~= f);
    while k < ss.len()
        invariant
            k <= ss@.len(),
            stmts_of(*ss).len() == ss@.len(),
            forall|j: int| 0 <= j < ss@.len() ==> #[trigger] stmts_of(*ss)[j] == ss@[j]@,
            gathered(*c, f + flatten(stmts_of(*ss), k as int)),
        decreases ss@.len() - k,
    {
        collect_statement(&ss[k], c, Ghost(f + flatten(stmts_of(*ss), k as int)));
        assert(f + flatten(stmts_of(*ss), k as int) + flatten_statement(ss@[k as int]@) =~= f
            + flatten(stmts_of(*ss), k + 1));
        k = k + 1;
    }
}

/// `r` is the outcome that `emit_spec` gives for `p`.
pub open spec fn emitted(r: Result<Vec<String>, EmitError>, p: Seq<StatementV>) -> bool {
    match emit_spec(p) {
        Ok(lines) => r matches Ok(out) && texts(out@) == lines,
        Err(name) => r matches Err(EmitError::DanglingLabel { name: n }) && n@ == name,
    }
}

/// Lowers a program to C source lines. Every `goto` must name a label that
/// the program declares somewhere, nested bodies included; the first one in
/// program order that does not is the error, and no line is produced.
pub fn emit_program(statements: Vec<Statement>) -> (r: Result<Vec<String>, EmitError>)
    ensures
        emitted(r, stmts_of(statements)),
{
    let ghost p = stmts_of(statements);
    proof {
        lemma_statements_view_index(statements, statements@.len() as int);
    }
    let mut c = Collected { labels: Vec::new(), gotos: Vec::new(), variables: Vec::new() };
    assert(texts(c.labels@) =~= Seq::empty());
    assert(texts(c.gotos@) =~= Seq::empty());
    assert(texts(c.variables@) =~= Seq::empty());
    collect_block(&statements, &mut c, Ghost(Seq::empty()));
    assert(Seq::<StatementV>::empty() + all_statements(p) =~= all_statements(p));
    let ghost targets = gotos_in(all_statements(p));
    let ghost labels = labels_in(all_statements(p));
    let mut k: usize = 0;
    assert(targets.subrange(0, targets.len() as int) =~= targets);
    while k < c.gotos.len()
        invariant
            p == stmts_of(statements),
            targets == gotos_in(all_statements(p)),
            labels == labels_in(all_statements(p)),
            texts(c.gotos@) == targets,
            texts(c.labels@) == labels,
            k <= targets.len(),
            first_missing(targets, labels) == first_missing(
                targets.subrange(k as int, targets.len() as int),
                labels,
            ),
        decreases targets.len() - k,
    {
        let rest = Ghost(targets.subrange(k as int, targets.len() as int));
        assert(rest@[0] == targets[k as int]);
        if !contains_name(&c.labels, &c.gotos[k]) {
            assert(texts(c.gotos@)[k as int] == c.gotos@[k as int]@);
            return Err(EmitError::DanglingLabel { name: c.gotos[k].clone() });
        }
        assert(rest@.drop_first() =~= targets.subrange(k + 1, targets.len() as int));
        k = k + 1;
    }
    assert(targets.subrange(k as int, targets.len() as int) =~= Seq::<Seq<char>>::empty());
    let mut out: Vec<String> = Vec::new();
    push_line(&mut out, String::from_str("#include <stdio.h>"));
    push_line(&mut out, String::from_str("int main(void){\n"));
    assert(texts(out@) =~= preamble());
    let ghost vars = variables_in(all_statements(p));
    let mut j: usize = 0;
    while j < c.variables.len()
        invariant
            p == stmts_of(statements),
            vars == variables_in(all_statements(p)),
            first_missing(targets, labels) is None,
            targets == gotos_in(all_statements(p)),
            labels == labels_in(all_statements(p)),
            texts(c.variables@) == vars,
            j <= vars.len(),
            texts(out@) == preamble() + declarations(vars).take(j as int),
        decreases vars.len() - j,
    {
        let mut line = String::from_str("int ");
        line.append(c.variables[j].as_str());
        line.append(" = 0;");
        push_line(&mut out, line);
        assert(declarations(vars).take(j + 1) =~= declarations(vars).take(j as int).push(line@));
        j = j + 1;
    }
    assert(declarations(vars).take(j as int) =~= declarations(vars));
    emit_block(&statements, &String::new(), &mut out);
    push_line(&mut out, String::from_str("return 0;"));
    push_line(&mut out, String::from_str("}"));
    assert(texts(out@) =~= preamble() + declarations(vars) + block_lines(
        p,
        p.len() as int,
        Seq::empty(),
    ) + epilogue());
    Ok(out)
}


proof fn lemma_names_in(f: Seq<StatementV>, pick: spec_fn(StatementV) -> Option<Seq<char>>)
    ensures
        forall|x: Seq<char>|
            #![trigger names_in(f, pick).contains(x)]
            names_in(f, pick).contains(x) <==> exists|k: int|
                0 <= k < f.len() && pick(#[trigger] f[k]) == Some(x),
    decreases f.len(),
{
    if f.len() > 0 {
        let g = f.drop_last();
        lemma_names_in(g, pick);
        let here = names_in(f, pick);
        let before = names_in(g, pick);
        assert forall|x: Seq<char>| here.contains(x) <==> exists|k: int|
            0 <= k < f.len() && pick(#[trigger] f[k]) == Some(x) by {
            if here.contains(x) {
                let i = choose|i: int| 0 <= i < here.len() && here[i] == x;
                let in_before = match pick(f.last()) {
                    Some(n) => {
                        assert(here == before.push(n));
                        i < before.len()
                    },
                    None => {
                        assert(here == before);
                        true
                    },
                };
                if in_before {
                    assert(before[i] == x);
                    assert(before.contains(x));
                    let k = choose|k: int| 0 <= k < g.len() && pick(#[trigger] g[k]) == Some(x);
                    assert(f[k] == g[k]);
                    assert(0 <= k < f.len() && pick(f[k]) == Some(x));
                } else {
                    assert(pick(f[f.len() - 1]) == Some(x));
                }
            }
            if exists|k: int| 0 <= k < f.len() && pick(#[trigger] f[k]) == Some(x) {
                let k = choose|k: int| 0 <= k < f.len() && pick(#[trigger] f[k]) == Some(x);
                if k < f.len() - 1 {
                    assert(g[k] == f[k]);
                    assert(before.contains(x));
                    let i = choose|i: int| 0 <= i < before.len() && before[i] == x;
                    match pick(f.last()) {
                        Some(n) => {
                            assert(here == before.push(n));
                            assert(here[i] == x);
                        },
                        None => {
                            assert(here == before);
                        },
                    }
                } else {
                    assert(here == before.push(x));
                    assert(here[before.len() as int] == x);
                }
            }
        }
    }
}

proof fn lemma_first_missing(targets: Seq<Seq<char>>, labels: Seq<Seq<char>>)
    ensures
        first_missing(targets, labels) is None ==> forall|i: int|
            0 <= i < targets.len() ==> labels.contains(#[trigger] targets[i]),
        first_missing(targets, labels) matches Some(x) ==> targets.contains(x) && !labels.contains(
            x,
        ),
    decreases targets.len(),
{
    if targets.len() > 0 {
        let rest = targets.drop_first();
        lemma_first_missing(rest, labels);
        if first_missing(targets, labels) is None {
            assert forall|i: int| 0 <= i < targets.len() implies labels.contains(
                #[trigger] targets[i],
            ) by {
                if i > 0 {
                    assert(targets[i] == rest[i - 1]);
                }
            }
        }
        if let Some(x) = first_missing(targets, labels) {
            if labels.contains(targets[0]) {
                let i = choose|i: int| 0 <= i < rest.len() && rest[i] == x;
                assert(targets[i + 1] == x);
            } else {
                assert(targets[0] == x);
            }
        }
    }
}

/// Label/goto closure: when emission succeeds, every `goto` of the program,
/// nested ones included, names a label that the program declares somewhere;
/// when it fails, the error names the target of a `goto` of the program that
/// no label declares.
pub proof fn lemma_goto_closure(p: Seq<StatementV>)
    ensures
        emit_spec(p) is Ok ==> forall|k: int|
            0 <= k < all_statements(p).len() && (#[trigger] all_statements(p)[k]) is Goto
                ==> exists|m: int|
                0 <= m < all_statements(p).len() && #[trigger] all_statements(p)[m]
                    == StatementV::Label(all_statements(p)[k]->Goto_0),
        emit_spec(p) matches Err(x) ==> (exists|k: int|
            0 <= k < all_statements(p).len() && #[trigger] all_statements(p)[k]
                == StatementV::Goto(x)) && !(exists|m: int|
            0 <= m < all_statements(p).len() && #[trigger] all_statements(p)[m]
                == StatementV::Label(x)),
{
    let f = all_statements(p);
    let labels = |s: StatementV| label_name(s);
    let gotos = |s: StatementV| goto_target(s);
    lemma_names_in(f, labels);
    lemma_names_in(f, gotos);
    assert(labels_in(f) == names_in(f, labels));
    assert(gotos_in(f) == names_in(f, gotos));
    lemma_first_missing(gotos_in(f), labels_in(f));
    if emit_spec(p) is Ok {
        assert forall|k: int| 0 <= k < f.len() && (#[trigger] f[k]) is Goto implies exists|m: int|
            0 <= m < f.len() && #[trigger] f[m] == StatementV::Label(f[k]->Goto_0) by {
            let x = f[k]->Goto_0;
            assert(f[k] == StatementV::Goto(x));
            assert(gotos_in(f).contains(x));
            let i = choose|i: int| 0 <= i < gotos_in(f).len() && gotos_in(f)[i] == x;
            assert(labels_in(f).contains(gotos_in(f)[i]));
        }
    }
}

/// Emission is a function of the program: two emissions of the same
/// program give the same lines, or the same error.
pub proof fn lemma_emit_idempotent(
    p: Seq<StatementV>,
    r1: Result<Vec<String>, EmitError>,
    r2: Result<Vec<String>, EmitError>,
)
    requires
        emitted(r1, p),
        emitted(r2, p),
    ensures
        r1 is Ok <==> r2 is Ok,
        r1 matches Ok(a) ==> r2 matches Ok(b) && texts(a@) == texts(b@),
        r1 matches Err(EmitError::DanglingLabel { name: a }) ==> r2 matches Err(
            EmitError::DanglingLabel { name: b },
        ) && a@ == b@,
{
}

} // verus!

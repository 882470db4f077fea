use vstd::prelude::*;

verus! {

/// A lexical unit of a teeny program.
#[derive(Debug, Clone, PartialEq)]
#[allow(inconsistent_fields)]
pub enum Token {
    EOF,
    Newline,
    Number { value: i32 },
    Identifier { name: String },
    String { value: String },
    // Keywords
    Label { name: String },
    Goto,
    Print,
    Input,
    Let,
    If,
    Then,
    Endif,
    While,
    Repeat,
    Endwhile,
    // Operators
    Equal,
    Plus,
    Minus,
    Asterisk,
    Slash,
    EqualEqual,
    NotEqual,
    LessThan,
    GreaterThan,
    LessThanEqual,
    GreaterThanEqual,
}

/// The mathematical content of a [`Token`]: texts are character sequences.
#[allow(inconsistent_fields)]
pub enum TokenView {
    EOF,
    Newline,
    Number { value: i32 },
    Identifier { name: Seq<char> },
    String { value: Seq<char> },
    Label { name: Seq<char> },
    Goto,
    Print,
    Input,
    Let,
    If,
    Then,
    Endif,
    While,
    Repeat,
    Endwhile,
    Equal,
    Plus,
    Minus,
    Asterisk,
    Slash,
    EqualEqual,
    NotEqual,
    LessThan,
    GreaterThan,
    LessThanEqual,
    GreaterThanEqual,
}

impl View for Token {
    type V = TokenView;

    open spec fn view(&self) -> TokenView {
        match self {
            Token::EOF => TokenView::EOF,
            Token::Newline => TokenView::Newline,
            Token::Number { value } => TokenView::Number { value: *value },
            Token::Identifier { name } => TokenView::Identifier { name: name@ },
            Token::String { value } => TokenView::String { value: value@ },
            Token::Label { name } => TokenView::Label { name: name@ },
            Token::Goto => TokenView::Goto,
            Token::Print => TokenView::Print,
            Token::Input => TokenView::Input,
            Token::Let => TokenView::Let,
            Token::If => TokenView::If,
            Token::Then => TokenView::Then,
            Token::Endif => TokenView::Endif,
            Token::While => TokenView::While,
            Token::Repeat => TokenView::Repeat,
            Token::Endwhile => TokenView::Endwhile,
            Token::Equal => TokenView::Equal,
            Token::Plus => TokenView::Plus,
            Token::Minus => TokenView::Minus,
            Token::Asterisk => TokenView::Asterisk,
            Token::Slash => TokenView::Slash,
            Token::EqualEqual => TokenView::EqualEqual,
            Token::NotEqual => TokenView::NotEqual,
            Token::LessThan => TokenView::LessThan,
            Token::GreaterThan => TokenView::GreaterThan,
            Token::LessThanEqual => TokenView::LessThanEqual,
            Token::GreaterThanEqual => TokenView::GreaterThanEqual,
        }
    }
}

/// Why lexing stopped.
#[derive(Debug, Clone, PartialEq)]
pub enum LexError {
    /// A character that starts no token (or a `!` not followed by `=`),
    /// with its index among the input's characters.
    UnexpectedChar { ch: char, pos: usize },
    /// A run of digits, starting at the given index, whose value exceeds `i32::MAX`.
    NumberTooLarge { pos: usize },
}

pub open spec fn is_digit(c: char) -> bool {
    '0' <= c && c <= '9'
}

pub open spec fn is_ident_start(c: char) -> bool {
    ('a' <= c && c <= 'z') || ('A' <= c && c <= 'Z') || c == '_'
}

pub open spec fn is_ident_char(c: char) -> bool {
    is_ident_start(c) || is_digit(c)
}

pub open spec fn is_blank(c: char) -> bool {
    c == ' ' || c == '\t' || c == '\r'
}

/// End of the maximal run of digits that starts at `i`.
pub open spec fn digit_run_end(s: Seq<char>, i: int) -> int
    decreases s.len() - i,
{
    if 0 <= i < s.len() && is_digit(s[i]) {
        digit_run_end(s, i + 1)
    } else {
        i
    }
}

/// End of the maximal run of identifier characters that starts at `i`.
pub open spec fn ident_run_end(s: Seq<char>, i: int) -> int
    decreases s.len() - i,
{
    if 0 <= i < s.len() && is_ident_char(s[i]) {
        ident_run_end(s, i + 1)
    } else {
        i
    }
}

/// End of a string literal's text that starts at `i`: the next `"`, or the
/// end of the line.
pub open spec fn string_end(s: Seq<char>, i: int) -> int
    decreases s.len() - i,
{
    if 0 <= i < s.len() && s[i] != '"' && s[i] != '\n' {
        string_end(s, i + 1)
    } else {
        i
    }
}

pub open spec fn digit_value(c: char) -> int {
    c as int - '0' as int
}

/// The base-10 value of a sequence of digits.
pub open spec fn digits_value(d: Seq<char>) -> int
    decreases d.len(),
{
    if d.len() == 0 {
        0
    } else {
        digits_value(d.drop_last()) * 10 + digit_value(d.last())
    }
}

/// The token of a word: a keyword, or else an identifier.
pub open spec fn word_token(w: Seq<char>) -> TokenView {
    if w == seq!['l', 'a', 'b', 'e', 'l'] {
        TokenView::Label { name: w }
    } else if w == seq!['g', 'o', 't', 'o'] {
        TokenView::Goto
    } else if w == seq!['p', 'r', 'i', 'n', 't'] {
        TokenView::Print
    } else if w == seq!['i', 'n', 'p', 'u', 't'] {
        TokenView::Input
    } else if w == seq!['l', 'e', 't'] {
        TokenView::Let
    } else if w == seq!['i', 'f'] {
        TokenView::If
    } else if w == seq!['t', 'h', 'e', 'n'] {
        TokenView::Then
    } else if w == seq!['e', 'n', 'd', 'i', 'f'] {
        TokenView::Endif
    } else if w == seq!['w', 'h', 'i', 'l', 'e'] {
        TokenView::While
    } else if w == seq!['r', 'e', 'p', 'e', 'a', 't'] {
        TokenView::Repeat
    } else if w == seq!['e', 'n', 'd', 'w', 'h', 'i', 'l', 'e'] {
        TokenView::Endwhile
    } else {
        TokenView::Identifier { name: w }
    }
}

/// An operator of one character, or of two when the second is `=`.
pub open spec fn operator_at(s: Seq<char>, i: int) -> Option<(TokenView, int)> {
    let c = s[i];
    let eq_next = i + 1 < s.len() && s[i + 1] == '=';
    if c == '+' {
        Some((TokenView::Plus, i + 1))
    } else if c == '-' {
        Some((TokenView::Minus, i + 1))
    } else if c == '*' {
        Some((TokenView::Asterisk, i + 1))
    } else if c == '/' {
        Some((TokenView::Slash, i + 1))
    } else if c == '=' {
        if eq_next {
            Some((TokenView::EqualEqual, i + 2))
        } else {
            Some((TokenView::Equal, i + 1))
        }
    } else if c == '<' {
        if eq_next {
            Some((TokenView::LessThanEqual, i + 2))
        } else {
            Some((TokenView::LessThan, i + 1))
        }
    } else if c == '>' {
        if eq_next {
            Some((TokenView::GreaterThanEqual, i + 2))
        } else {
            Some((TokenView::GreaterThan, i + 1))
        }
    } else if c == '!' && eq_next {
        Some((TokenView::NotEqual, i + 2))
    } else {
        None
    }
}

/// The token that starts at `i`, a character that is not blank, and the index
/// just past it.
pub open spec fn token_at(s: Seq<char>, i: int) -> Result<(TokenView, int), LexError> {
    let c = s[i];
    if c == '\n' {
        Ok((TokenView::Newline, i + 1))
    } else if is_digit(c) {
        let j = digit_run_end(s, i);
        let v = digits_value(s.subrange(i, j));
        if v > i32::MAX {
            Err(LexError::NumberTooLarge { pos: i as usize })
        } else {
            Ok((TokenView::Number { value: v as i32 }, j))
        }
    } else if c == '"' {
        let j = string_end(s, i + 1);
        let next = if j < s.len() && s[j] == '"' {
            j + 1
        } else {
            j
        };
        Ok((TokenView::String { value: s.subrange(i + 1, j) }, next))
    } else if is_ident_start(c) {
        let j = ident_run_end(s, i);
        Ok((word_token(s.subrange(i, j)), j))
    } else {
        match operator_at(s, i) {
            Some((t, j)) => Ok((t, j)),
            None => Err(LexError::UnexpectedChar { ch: c, pos: i as usize }),
        }
    }
}

/// The index just past the token at `i` (or `i + 1` where there is none).
pub open spec fn token_end(s: Seq<char>, i: int) -> int {
    match token_at(s, i) {
        Ok((_, j)) => j,
        Err(_) => i + 1,
    }
}

pub open spec fn prepend<E>(p: Seq<TokenView>, r: Result<Seq<TokenView>, E>) -> Result<
    Seq<TokenView>,
    E,
> {
    match r {
        Ok(rest) => Ok(p + rest),
        Err(e) => Err(e),
    }
}

/// The tokens of `s` from index `i` on: blanks are skipped, and the first
/// character that starts no token ends lexing with an error.
pub open spec fn lex_from(s: Seq<char>, i: int) -> Result<Seq<TokenView>, LexError>
    decreases s.len() - i,
    when 0 <= i
    via lex_from_decreases
{
    if i >= s.len() {
        Ok(Seq::empty())
    } else if is_blank(s[i]) {
        lex_from(s, i + 1)
    } else {
        match token_at(s, i) {
            Err(e) => Err(e),
            Ok((t, j)) => prepend(seq![t], lex_from(s, j)),
        }
    }
}

/// The tokens of a whole source text.
pub open spec fn lex_spec(s: Seq<char>) -> Result<Seq<TokenView>, LexError> {
    lex_from(s, 0)
}

#[via_fn]
proof fn lex_from_decreases(s: Seq<char>, i: int) {
    if 0 <= i < s.len() && !is_blank(s[i]) {
        lemma_token_advances(s, i);
    }
}

pub proof fn lemma_digit_run(s: Seq<char>, i: int)
    requires
        0 <= i <= s.len(),
    ensures
        i <= digit_run_end(s, i) <= s.len(),
        forall|k: int| i <= k < digit_run_end(s, i) ==> is_digit(#[trigger] s[k]),
        digit_run_end(s, i) < s.len() ==> !is_digit(s[digit_run_end(s, i)]),
    decreases s.len() - i,
{
    if i < s.len() && is_digit(s[i]) {
        lemma_digit_run(s, i + 1);
    }
}

pub proof fn lemma_ident_run(s: Seq<char>, i: int)
    requires
        0 <= i <= s.len(),
    ensures
        i <= ident_run_end(s, i) <= s.len(),
        forall|k: int| i <= k < ident_run_end(s, i) ==> is_ident_char(#[trigger] s[k]),
        ident_run_end(s, i) < s.len() ==> !is_ident_char(s[ident_run_end(s, i)]),
    decreases s.len() - i,
{
    if i < s.len() && is_ident_char(s[i]) {
        lemma_ident_run(s, i + 1);
    }
}

pub proof fn lemma_string_run(s: Seq<char>, i: int)
    requires
        0 <= i <= s.len(),
    ensures
        i <= string_end(s, i) <= s.len(),
        forall|k: int| i <= k < string_end(s, i) ==> #[trigger] s[k] != '"' && s[k] != '\n',
        string_end(s, i) < s.len() ==> (s[string_end(s, i)] == '"' || s[string_end(s, i)]
            == '\n'),
    decreases s.len() - i,
{
    if i < s.len() && s[i] != '"' && s[i] != '\n' {
        lemma_string_run(s, i + 1);
    }
}

/// A token always consumes at least one character, and never runs past the end.
pub proof fn lemma_token_advances(s: Seq<char>, i: int)
    requires
        0 <= i < s.len(),
    ensures
        i < token_end(s, i) <= s.len(),
{
    lemma_digit_run(s, i);
    lemma_ident_run(s, i);
    lemma_string_run(s, i + 1);
}


pub proof fn lemma_digits_step(s: Seq<char>, i: int, k: int)
    requires
        0 <= i <= k < s.len(),
    ensures
        digits_value(s.subrange(i, k + 1)) == digits_value(s.subrange(i, k)) * 10 + digit_value(
            s[k],
        ),
{
    assert(s.subrange(i, k + 1).drop_last() =~= s.subrange(i, k));
}

/// Extending a run of digits never lowers its value.
pub proof fn lemma_digits_grow(s: Seq<char>, i: int, k: int, j: int)
    requires
        0 <= i <= k <= j <= s.len(),
        forall|m: int| i <= m < j ==> is_digit(#[trigger] s[m]),
    ensures
        digits_value(s.subrange(i, k)) <= digits_value(s.subrange(i, j)),
    decreases j - k,
{
    if k < j {
        lemma_digits_grow(s, i, k, j - 1);
        lemma_digits_step(s, i, j - 1);
        assert(digits_value(s.subrange(i, j - 1)) >= 0) by {
            lemma_digits_nonneg(s.subrange(i, j - 1));
        }
    }
}

pub proof fn lemma_digits_nonneg(d: Seq<char>)
    requires
        forall|m: int| 0 <= m < d.len() ==> is_digit(#[trigger] d[m]),
    ensures
        digits_value(d) >= 0,
    decreases d.len(),
{
    if d.len() > 0 {
        lemma_digits_nonneg(d.drop_last());
    }
}

/// Characters the language gives a meaning to: blanks, line feeds, letters,
/// digits, `_`, `"` and the operator
/// characters other than `!`.
pub open spec fn is_declared(c: char) -> bool {
    is_blank(c) || c == '\n' || is_ident_char(c) || c == '"' || c == '=' || c == '+'
        || c == '-' || c == '*' || c == '/' || c == '<' || c == '>'
}

/// Whether a string literal is open just before index `k`: a `"` outside a
/// literal opens one, and the next `"` or line feed closes it.
pub open spec fn string_open(s: Seq<char>, k: int) -> bool
    decreases k,
{
    if k <= 0 || k > s.len() {
        false
    } else if string_open(s, k - 1) {
        s[k - 1] != '"' && s[k - 1] != '\n'
    } else {
        s[k - 1] == '"'
    }
}

/// Index `k` holds the text of a string literal (not a quote, nor the line
/// feed that may end an unterminated literal).
pub open spec fn in_literal(s: Seq<char>, k: int) -> bool {
    string_open(s, k) && s[k] != '"' && s[k] != '\n'
}

/// Outside string literals, every character of `s` is declared, or is a `!`
/// that starts `!=`; the text of literals is free.
pub open spec fn only_declared(s: Seq<char>) -> bool {
    forall|k: int|
        0 <= k < s.len() && !in_literal(s, k) ==> is_declared(#[trigger] s[k]) || (s[k] == '!' && k
            + 1 < s.len() && s[k + 1] == '=')
}

/// No literal opens across characters that hold no quote.
proof fn lemma_stays_closed(s: Seq<char>, i: int, j: int)
    requires
        0 <= i <= j <= s.len(),
        !string_open(s, i),
        forall|k: int| i <= k < j ==> #[trigger] s[k] != '"',
    ensures
        !string_open(s, j),
    decreases j - i,
{
    if i < j {
        lemma_stays_closed(s, i, j - 1);
    }
}

/// An open literal stays open across its text.
proof fn lemma_stays_open(s: Seq<char>, i: int, j: int)
    requires
        1 <= i <= j <= s.len(),
        string_open(s, i),
        forall|k: int| i <= k < j ==> #[trigger] s[k] != '"' && s[k] != '\n',
    ensures
        string_open(s, j),
    decreases j - i,
{
    if i < j {
        lemma_stays_open(s, i, j - 1);
    }
}

/// Every run of digits in `s` has a value that fits an `i32`.
pub open spec fn numbers_fit(s: Seq<char>) -> bool {
    forall|i: int, j: int|
        0 <= i <= j <= s.len() && (forall|m: int| i <= m < j ==> is_digit(#[trigger] s[m]))
            ==> #[trigger] digits_value(s.subrange(i, j)) <= i32::MAX
}

/// The number of line feeds in `s`.
pub open spec fn line_feeds(s: Seq<char>) -> nat
    decreases s.len(),
{
    if s.len() == 0 {
        0
    } else {
        (if s[0] == '\n' {
            1nat
        } else {
            0nat
        }) + line_feeds(s.drop_first())
    }
}

/// The number of `Newline` tokens in `ts`.
pub open spec fn newline_tokens(ts: Seq<TokenView>) -> nat
    decreases ts.len(),
{
    if ts.len() == 0 {
        0
    } else {
        (if ts[0] is Newline {
            1nat
        } else {
            0nat
        }) + newline_tokens(ts.drop_first())
    }
}

proof fn lemma_line_feeds_split(s: Seq<char>, i: int, j: int, k: int)
    requires
        0 <= i <= j <= k <= s.len(),
    ensures
        line_feeds(s.subrange(i, k)) == line_feeds(s.subrange(i, j)) + line_feeds(s.subrange(j, k)),
    decreases j - i,
{
    if i < j {
        assert(s.subrange(i, k).drop_first() =~= s.subrange(i + 1, k));
        assert(s.subrange(i, j).drop_first() =~= s.subrange(i + 1, j));
        lemma_line_feeds_split(s, i + 1, j, k);
    } else {
        assert(s.subrange(i, j) =~= Seq::<char>::empty());
    }
}

proof fn lemma_no_line_feeds(s: Seq<char>, i: int, j: int)
    requires
        0 <= i <= j <= s.len(),
        forall|k: int| i <= k < j ==> #[trigger] s[k] != '\n',
    ensures
        line_feeds(s.subrange(i, j)) == 0,
    decreases j - i,
{
    if i < j {
        assert(s.subrange(i, j).drop_first() =~= s.subrange(i + 1, j));
        lemma_no_line_feeds(s, i + 1, j);
    }
}

/// The characters of a token hold a line feed exactly when the token is a
/// `Newline`, and then one.
proof fn lemma_token_line_feeds(s: Seq<char>, i: int)
    requires
        0 <= i < s.len(),
        !is_blank(s[i]),
        token_at(s, i) is Ok,
    ensures
        line_feeds(s.subrange(i, token_end(s, i))) == if token_at(s, i)->Ok_0.0 is Newline {
            1nat
        } else {
            0nat
        },
{
    lemma_token_advances(s, i);
    lemma_digit_run(s, i);
    lemma_ident_run(s, i);
    lemma_string_run(s, i + 1);
    let j = token_end(s, i);
    if s[i] == '\n' {
        assert(s.subrange(i, j).drop_first() =~= Seq::<char>::empty());
        assert(line_feeds(Seq::<char>::empty()) == 0);
    } else {
        assert forall|k: int| i <= k < j implies #[trigger] s[k] != '\n' by {
            if k > i {
                if s[i] == '"' {
                    if k < string_end(s, i + 1) {
                    } else {
                        assert(k == string_end(s, i + 1));
                    }
                } else if is_digit(s[i]) {
                    assert(is_digit(s[k]));
                } else if is_ident_start(s[i]) {
                    assert(is_ident_char(s[k]));
                } else {
                    assert(k == i + 1 && s[k] == '=');
                }
            }
        }
        lemma_no_line_feeds(s, i, j);
    }
}

proof fn lemma_lex_from_line_feeds(s: Seq<char>, i: int)
    requires
        0 <= i <= s.len(),
    ensures
        lex_from(s, i) matches Ok(ts) ==> newline_tokens(ts) == line_feeds(s.subrange(i, s.len() as int)),
    decreases s.len() - i,
{
    if i < s.len() {
        lemma_line_feeds_split(s, i, i + 1, s.len() as int);
        assert(s.subrange(i, i + 1).drop_first() =~= Seq::<char>::empty());
        if is_blank(s[i]) {
            assert(s.subrange(i, i + 1)[0] == s[i]);
            assert(line_feeds(Seq::<char>::empty()) == 0);
            lemma_lex_from_line_feeds(s, i + 1);
        } else if let Ok((t, j)) = token_at(s, i) {
            lemma_token_advances(s, i);
            lemma_token_line_feeds(s, i);
            lemma_line_feeds_split(s, i, j, s.len() as int);
            lemma_lex_from_line_feeds(s, j);
            if let Ok(rest) = lex_from(s, j) {
                assert((seq![t] + rest).drop_first() =~= rest);
                assert((seq![t] + rest)[0] == t);
            }
        }
    } else {
        assert(s.subrange(i, s.len() as int) =~= Seq::<char>::empty());
        assert(line_feeds(Seq::<char>::empty()) == 0);
        assert(newline_tokens(Seq::<TokenView>::empty()) == 0);
    }
}

/// Lexing never fails on a text whose characters outside string literals are
/// declared and whose runs of digits fit an `i32`; and a successful lexing yields one `Newline` token per line
/// feed of the text.
pub proof fn lemma_lex_total(s: Seq<char>)
    requires
        only_declared(s),
        numbers_fit(s),
    ensures
        lex_spec(s) is Ok,
        lex_spec(s) matches Ok(ts) ==> newline_tokens(ts) == line_feeds(s),
{
    lemma_lex_from_total(s, 0);
    lemma_lex_from_line_feeds(s, 0);
    assert(s.subrange(0, s.len() as int) =~= s);
}

proof fn lemma_lex_from_total(s: Seq<char>, i: int)
    requires
        0 <= i <= s.len(),
        i == s.len() || !string_open(s, i) || s[i] == '\n',
        only_declared(s),
        numbers_fit(s),
    ensures
        lex_from(s, i) is Ok,
    decreases s.len() - i,
{
    if i < s.len() {
        assert(!in_literal(s, i));
        if is_blank(s[i]) {
            lemma_lex_from_total(s, i + 1);
        } else {
            lemma_token_advances(s, i);
            lemma_digit_run(s, i);
            lemma_ident_run(s, i);
            lemma_string_run(s, i + 1);
            assert(token_at(s, i) is Ok);
            let j = token_end(s, i);
            if s[i] == '"' {
                let e = string_end(s, i + 1);
                assert(string_open(s, i + 1));
                lemma_stays_open(s, i + 1, e);
                if e < s.len() && s[e] == '"' {
                    assert(!string_open(s, e + 1));
                }
            } else if s[i] != '\n' {
                assert forall|k: int| i <= k < j implies #[trigger] s[k] != '"' by {
                    if k > i {
                        if is_digit(s[i]) {
                            assert(is_digit(s[k]));
                        } else if is_ident_start(s[i]) {
                            assert(is_ident_char(s[k]));
                        } else {
                            assert(s[k] == '=');
                        }
                    }
                }
                lemma_stays_closed(s, i, j);
            }
            lemma_lex_from_total(s, j);
        }
    }
}

pub open spec fn tokens_view(ts: Seq<Token>) -> Seq<TokenView> {
    ts.map_values(|t: Token| t@)
}

/// The characters of a text, in order.
fn chars_of(input: &str) -> (r: Vec<char>)
    ensures
        r@ == input@,
{
    let mut r: Vec<char> = Vec::new();
    for c in it: input.chars()
        invariant
            r@ == it.seq().take(it.index() as int),
    {
        r.push(c);
    }
    r
}


fn scan_digits(s: &Vec<char>, i: usize) -> (r: usize)
    requires
        i <= s@.len(),
    ensures
        r == digit_run_end(s@, i as int),
{
    let mut k = i;
    while k < s.len() && '0' <= s[k] && s[k] <= '9'
        invariant
            i <= k <= s@.len(),
            digit_run_end(s@, k as int) == digit_run_end(s@, i as int),
        decreases s@.len() - k,
    {
        k = k + 1;
    }
    k
}

fn scan_ident(s: &Vec<char>, i: usize) -> (r: usize)
    requires
        i <= s@.len(),
    ensures
        r == ident_run_end(s@, i as int),
{
    let mut k = i;
    while k < s.len() && (('a' <= s[k] && s[k] <= 'z') || ('A' <= s[k] && s[k] <= 'Z') || s[k]
        == '_' || ('0' <= s[k] && s[k] <= '9'))
        invariant
            i <= k <= s@.len(),
            ident_run_end(s@, k as int) == ident_run_end(s@, i as int),
        decreases s@.len() - k,
    {
        k = k + 1;
    }
    k
}

fn scan_string(s: &Vec<char>, i: usize) -> (r: usize)
    requires
        i <= s@.len(),
    ensures
        r == string_end(s@, i as int),
{
    let mut k = i;
    while k < s.len() && s[k] != '"' && s[k] != '\n'
        invariant
            i <= k <= s@.len(),
            string_end(s@, k as int) == string_end(s@, i as int),
        decreases s@.len() - k,
    {
        k = k + 1;
    }
    k
}

/// The value of the digits `s[i..j]`, or `None` where it exceeds `i32::MAX`.
fn number_value(s: &Vec<char>, i: usize, j: usize) -> (r: Option<i32>)
    requires
        i <= j <= s@.len(),
        forall|m: int| i <= m < j ==> is_digit(#[trigger] s@[m]),
    ensures
        match r {
            Some(v) => v as int == digits_value(s@.subrange(i as int, j as int)),
            None => digits_value(s@.subrange(i as int, j as int)) > i32::MAX,
        },
{
    let mut v: u64 = 0;
    let mut k = i;
    while k < j
        invariant
            i <= k <= j <= s@.len(),
            forall|m: int| i <= m < j ==> is_digit(#[trigger] s@[m]),
            v as int == digits_value(s@.subrange(i as int, k as int)),
            v <= i32::MAX,
        decreases j - k,
    {
        proof {
            lemma_digits_step(s@, i as int, k as int);
        }
        let d = (s[k] as u32 - '0' as u32) as u64;
        assert(v * 10 <= 10 * (i32::MAX as u64)) by (nonlinear_arith)
            requires
                v <= i32::MAX,
        ;
        v = v * 10 + d;
        k = k + 1;
        if v > i32::MAX as u64 {
            proof {
                lemma_digits_grow(s@, i as int, k as int, j as int);
            }
            return None;
        }
    }
    Some(v as i32)
}

/// Whether `s[i..j]` spells the word `w`.
fn spells(s: &Vec<char>, i: usize, j: usize, w: &[char]) -> (r: bool)
    requires
        i <= j <= s@.len(),
    ensures
        r == (s@.subrange(i as int, j as int) == w@),
{
    if j - i != w.len() {
        return false;
    }
    let mut k: usize = 0;
    while k < w.len()
        invariant
            j - i == w@.len(),
            i <= j <= s@.len(),
            k <= w@.len(),
            forall|m: int| 0 <= m < k ==> s@[i + m] == #[trigger] w@[m],
        decreases w@.len() - k,
    {
        if s[i + k] != w[k] {
            assert(s@.subrange(i as int, j as int)[k as int] != w@[k as int]);
            return false;
        }
        k = k + 1;
    }
    assert(s@.subrange(i as int, j as int) =~= w@);
    true
}

/// The token of the word `s[i..j]`, whose text is also `input[i..j]`.
fn word_at(s: &Vec<char>, input: &str, i: usize, j: usize) -> (r: Token)
    requires
        i <= j <= s@.len(),
        s@ == input@,
    ensures
        r@ == word_token(s@.subrange(i as int, j as int)),
{
    let text = || -> (t: String)
        ensures
            t@ == s@.subrange(i as int, j as int),
        { String::from_str(input.substring_char(i, j)) };
    if spells(s, i, j, &['l', 'a', 'b', 'e', 'l']) {
        Token::Label { name: text() }
    } else if spells(s, i, j, &['g', 'o', 't', 'o']) {
        Token::Goto
    } else if spells(s, i, j, &['p', 'r', 'i', 'n', 't']) {
        Token::Print
    } else if spells(s, i, j, &['i', 'n', 'p', 'u', 't']) {
        Token::Input
    } else if spells(s, i, j, &['l', 'e', 't']) {
        Token::Let
    } else if spells(s, i, j, &['i', 'f']) {
        Token::If
    } else if spells(s, i, j, &['t', 'h', 'e', 'n']) {
        Token::Then
    } else if spells(s, i, j, &['e', 'n', 'd', 'i', 'f']) {
        Token::Endif
    } else if spells(s, i, j, &['w', 'h', 'i', 'l', 'e']) {
        Token::While
    } else if spells(s, i, j, &['r', 'e', 'p', 'e', 'a', 't']) {
        Token::Repeat
    } else if spells(s, i, j, &['e', 'n', 'd', 'w', 'h', 'i', 'l', 'e']) {
        Token::Endwhile
    } else {
        Token::Identifier { name: text() }
    }
}


/// The token that starts at `i` and the index just past it.
fn next_token(s: &Vec<char>, input: &str, i: usize) -> (r: Result<(Token, usize), LexError>)
    requires
        i < s@.len(),
        s@ == input@,
        !is_blank(s@[i as int]),
    ensures
        match r {
            Ok((t, j)) => token_at(s@, i as int) == Ok::<(TokenView, int), LexError>((t@, j as int)),
            Err(e) => token_at(s@, i as int) == Err::<(TokenView, int), LexError>(e),
        },
{
    proof {
        lemma_digit_run(s@, i as int);
        lemma_string_run(s@, i + 1);
    }
    let c = s[i];
    let eq_next = s.len() - i > 1 && s[i + 1] == '=';
    if c == '\n' {
        Ok((Token::Newline, i + 1))
    } else if '0' <= c && c <= '9' {
        let j = scan_digits(s, i);
        match number_value(s, i, j) {
            Some(value) => Ok((Token::Number { value }, j)),
            None => Err(LexError::NumberTooLarge { pos: i }),
        }
    } else if c == '"' {
        let j = scan_string(s, i + 1);
        let value = String::from_str(input.substring_char(i + 1, j));
        let next = if j < s.len() && s[j] == '"' {
            j + 1
        } else {
            j
        };
        Ok((Token::String { value }, next))
    } else if ('a' <= c && c <= 'z') || ('A' <= c && c <= 'Z') || c == '_' {
        let j = scan_ident(s, i);
        proof {
            lemma_ident_run(s@, i as int);
        }
        Ok((word_at(s, input, i, j), j))
    } else if c == '+' {
        Ok((Token::Plus, i + 1))
    } else if c == '-' {
        Ok((Token::Minus, i + 1))
    } else if c == '*' {
        Ok((Token::Asterisk, i + 1))
    } else if c == '/' {
        Ok((Token::Slash, i + 1))
    } else if c == '=' {
        if eq_next {
            Ok((Token::EqualEqual, i + 2))
        } else {
            Ok((Token::Equal, i + 1))
        }
    } else if c == '<' {
        if eq_next {
            Ok((Token::LessThanEqual, i + 2))
        } else {
            Ok((Token::LessThan, i + 1))
        }
    } else if c == '>' {
        if eq_next {
            Ok((Token::GreaterThanEqual, i + 2))
        } else {
            Ok((Token::GreaterThan, i + 1))
        }
    } else if c == '!' && eq_next {
        Ok((Token::NotEqual, i + 2))
    } else {
        Err(LexError::UnexpectedChar { ch: c, pos: i })
    }
}

/// Splits a source text into tokens. Blanks (space, tab, carriage return)
/// are skipped; each line feed is a `Newline` token. The first character that
/// starts no token, or a number too large for `i32`, is the error.
pub fn lex(input: &str) -> (r: Result<Vec<Token>, LexError>)
    ensures
        r matches Ok(ts) ==> lex_spec(input@) == Ok::<Seq<TokenView>, LexError>(tokens_view(ts@)),
        r matches Err(e) ==> lex_spec(input@) == Err::<Seq<TokenView>, LexError>(e),
{
    let s = chars_of(input);
    let mut tokens: Vec<Token> = Vec::new();
    let mut i: usize = 0;
    while i < s.len()
        invariant
            s@ == input@,
            i <= s@.len(),
            lex_spec(s@) == prepend(tokens_view(tokens@), lex_from(s@, i as int)),
        decreases s@.len() - i,
    {
        let c = s[i];
        if c == ' ' || c == '\t' || c == '\r' {
            i = i + 1;
        } else {
            proof {
                lemma_token_advances(s@, i as int);
            }
            match next_token(&s, input, i) {
                Ok((t, j)) => {
                    let ghost before = tokens_view(tokens@);
                    tokens.push(t);
                    proof {
                        assert(tokens_view(tokens@) =~= before + seq![t@]);
                        match lex_from(s@, j as int) {
                            Ok(rest) => {
                                assert(before + (seq![t@] + rest) =~= (before + seq![t@]) + rest);
                            },
                            Err(_) => {},
                        }
                    }
                    i = j;
                },
                Err(e) => {
                    return Err(e);
                },
            }
        }
    }
    assert(tokens_view(tokens@) + Seq::<TokenView>::empty() =~= tokens_view(tokens@));
    Ok(tokens)
}


impl Token {
    /// A copy of this token.
    pub fn duplicate(&self) -> (r: Token)
        ensures
            r == *self,
    {
        match self {
            Token::EOF => Token::EOF,
            Token::Newline => Token::Newline,
            Token::Number { value } => Token::Number { value: *value },
            Token::Identifier { name } => Token::Identifier { name: name.clone() },
            Token::String { value } => Token::String { value: value.clone() },
            Token::Label { name } => Token::Label { name: name.clone() },
            Token::Goto => Token::Goto,
            Token::Print => Token::Print,
            Token::Input => Token::Input,
            Token::Let => Token::Let,
            Token::If => Token::If,
            Token::Then => Token::Then,
            Token::Endif => Token::Endif,
            Token::While => Token::While,
            Token::Repeat => Token::Repeat,
            Token::Endwhile => Token::Endwhile,
            Token::Equal => Token::Equal,
            Token::Plus => Token::Plus,
            Token::Minus => Token::Minus,
            Token::Asterisk => Token::Asterisk,
            Token::Slash => Token::Slash,
            Token::EqualEqual => Token::EqualEqual,
            Token::NotEqual => Token::NotEqual,
            Token::LessThan => Token::LessThan,
            Token::GreaterThan => Token::GreaterThan,
            Token::LessThanEqual => Token::LessThanEqual,
            Token::GreaterThanEqual => Token::GreaterThanEqual,
        }
    }
}

/// The token at index `i` of `ts`, or `None` past the end.
pub open spec fn token_opt(ts: Seq<Token>, i: int) -> Option<Token> {
    if 0 <= i < ts.len() {
        Some(ts[i])
    } else {
        None
    }
}

/// A cursor over a token sequence, with one token of lookahead.
#[derive(Debug)]
pub struct TokenIterator {
    tokens: Vec<Token>,
    index: usize,
}

impl TokenIterator {
    #[verifier::type_invariant]
    spec fn in_range(&self) -> bool {
        self.index <= self.tokens@.len()
    }

    /// The whole sequence the cursor walks.
    pub closed spec fn tokens_seq(&self) -> Seq<Token> {
        self.tokens@
    }

    /// The index of the next token to hand out.
    pub closed spec fn pos(&self) -> int {
        self.index as int
    }

    /// A cursor at the start of a copy of `tokens`.
    pub fn new(tokens: &Vec<Token>) -> (r: Self)
        ensures
            r.tokens_seq() == tokens@,
            r.pos() == 0,
    {
        let mut copy: Vec<Token> = Vec::new();
        let mut i: usize = 0;
        while i < tokens.len()
            invariant
                i <= tokens@.len(),
                copy@ == tokens@.take(i as int),
            decreases tokens@.len() - i,
        {
            copy.push(tokens[i].duplicate());
            proof {
                assert(tokens@.take(i + 1) =~= tokens@.take(i as int).push(tokens@[i as int]));
            }
            i = i + 1;
        }
        assert(tokens@.take(i as int) =~= tokens@);
        TokenIterator { tokens: copy, index: 0 }
    }

    /// The next token, without consuming it.
    pub fn peek(&self) -> (r: Option<&Token>)
        ensures
            r matches Some(t) ==> token_opt(self.tokens_seq(), self.pos()) == Some(*t),
            r is None ==> token_opt(self.tokens_seq(), self.pos()) is None,
            0 <= self.pos() <= self.tokens_seq().len(),
    {
        proof {
            use_type_invariant(self);
        }
        if self.index < self.tokens.len() {
            Some(&self.tokens[self.index])
        } else {
            None
        }
    }

    /// Moves past the next token; at the end, stays there.
    pub fn advance(&mut self)
        ensures
            final(self).tokens_seq() == old(self).tokens_seq(),
            final(self).pos() == if 0 <= old(self).pos() < old(self).tokens_seq().len() {
                old(self).pos() + 1
            } else {
                old(self).pos()
            },
            final(self).pos() <= final(self).tokens_seq().len(),
    {
        proof {
            use_type_invariant(&*self);
        }
        if self.index < self.tokens.len() {
            self.index = self.index + 1;
        }
    }

    /// Hands out a copy of the next token and moves past it.
    pub fn next(&mut self) -> (r: Option<Token>)
        ensures
            r == token_opt(old(self).tokens_seq(), old(self).pos()),
            final(self).tokens_seq() == old(self).tokens_seq(),
            final(self).pos() == if r is Some {
                old(self).pos() + 1
            } else {
                old(self).pos()
            },
            final(self).pos() <= final(self).tokens_seq().len(),
    {
        proof {
            use_type_invariant(&*self);
        }
        if self.index < self.tokens.len() {
            let token = self.tokens[self.index].duplicate();
            self.index = self.index + 1;
            Some(token)
        } else {
            None
        }
    }
}

} // verus!

//! Edge-condition expressions: the tokenizer and the parser.
//!
//! The grammar: dotted field paths (`result.confidence`), comparisons
//! (`==`, `!=`, `>`, `<`, `>=`, `<=`), logic (`&&`, `||`, `!`), and string
//! (single or double quoted), number, boolean and null literals. Precedence
//! from tightest: `!`, comparison, `&&`, `||`.
use vstd::prelude::*;
use vstd::string::*;
use crate::errors::ExpressionError;
use crate::json::{opt_json_view, JsonValue, JsonView};

verus! {

/// A token of an expression. A number keeps its literal text.
#[derive(Debug)]
pub enum Token {
    Ident(String),
    Str(String),
    Num(String),
    Bool(bool),
    Null,
    Eq,
    Ne,
    Gt,
    Lt,
    Ge,
    Le,
    And,
    Or,
    Not,
}

/// The model of a token.
pub enum TokenView {
    Ident(Seq<char>),
    Str(Seq<char>),
    Num(Seq<char>),
    Bool(bool),
    Null,
    Eq,
    Ne,
    Gt,
    Lt,
    Ge,
    Le,
    And,
    Or,
    Not,
}

impl View for Token {
    type V = TokenView;

    open spec fn view(&self) -> TokenView {
        match self {
            Token::Ident(s) => TokenView::Ident(s@),
            Token::Str(s) => TokenView::Str(s@),
            Token::Num(s) => TokenView::Num(s@),
            Token::Bool(b) => TokenView::Bool(*b),
            Token::Null => TokenView::Null,
            Token::Eq => TokenView::Eq,
            Token::Ne => TokenView::Ne,
            Token::Gt => TokenView::Gt,
            Token::Lt => TokenView::Lt,
            Token::Ge => TokenView::Ge,
            Token::Le => TokenView::Le,
            Token::And => TokenView::And,
            Token::Or => TokenView::Or,
            Token::Not => TokenView::Not,
        }
    }
}

/// The models of a list of tokens.
pub open spec fn tokens_view(ts: Seq<Token>) -> Seq<TokenView> {
    ts.map_values(|t: Token| t@)
}

pub open spec fn is_space(c: char) -> bool {
    c == ' ' || c == '\t' || c == '\r' || c == '\n'
}

pub open spec fn is_digit(c: char) -> bool {
    '0' <= c && c <= '9'
}

pub open spec fn is_alpha(c: char) -> bool {
    ('a' <= c && c <= 'z') || ('A' <= c && c <= 'Z')
}

/// A character that may start a field path or keyword.
pub open spec fn is_word_start(c: char) -> bool {
    is_alpha(c) || c == '_'
}

/// A character that may continue a field path or keyword.
pub open spec fn is_word_char(c: char) -> bool {
    is_alpha(c) || is_digit(c) || c == '_' || c == '.'
}

/// A character that may continue a number.
pub open spec fn is_number_char(c: char) -> bool {
    is_digit(c) || c == '.'
}

/// Whether `c` continues a run of kind `kind`: 0 for characters other than
/// `quote`, 1 for number characters, 2 for word characters.
pub open spec fn in_run(kind: u8, quote: char, c: char) -> bool {
    if kind == 0 {
        c != quote
    } else if kind == 1 {
        is_number_char(c)
    } else {
        is_word_char(c)
    }
}

/// The index of the first character at or after `j` that does not continue
/// a run of kind `kind` (the length when there is none).
pub open spec fn scan(cs: Seq<char>, j: int, kind: u8, quote: char) -> int
    decreases cs.len() - j,
{
    if 0 <= j < cs.len() && in_run(kind, quote, cs[j]) {
        scan(cs, j + 1, kind, quote)
    } else {
        j
    }
}

/// How many dots a text holds.
pub open spec fn dot_count(s: Seq<char>) -> nat
    decreases s.len(),
{
    if s.len() == 0 {
        0
    } else {
        dot_count(s.drop_last()) + if s.last() == '.' {
            1nat
        } else {
            0
        }
    }
}

/// One step of the tokenizer at position `i`: skip a blank, emit a token
/// and move on, or fail with a message.
pub enum LexStep {
    Skip(int),
    Emit(TokenView, int),
    Fail(Seq<char>),
}

/// The character after position `i`, if any.
pub open spec fn next_char(cs: Seq<char>, i: int) -> Option<char> {
    if 0 <= i + 1 < cs.len() {
        Some(cs[i + 1])
    } else {
        None
    }
}

/// The token a word reads as: a keyword literal or a field path.
pub open spec fn word_token(w: Seq<char>) -> TokenView {
    if w == "true"@ {
        TokenView::Bool(true)
    } else if w == "false"@ {
        TokenView::Bool(false)
    } else if w == "null"@ {
        TokenView::Null
    } else {
        TokenView::Ident(w)
    }
}

/// The tokenizer's step at position `i` (which is within `cs`).
///
/// Two-character operators win over one-character ones. A quoted string
/// runs to the next matching quote. A number is an optional minus sign
/// before a digit, then digits and dots, and is valid with at most one dot.
/// A word starts with a letter or underscore and continues with letters,
/// digits, underscores and dots. Anything else is an error.
pub open spec fn lex_step(cs: Seq<char>, i: int) -> LexStep {
    let c = cs[i];
    let n = next_char(cs, i);
    if is_space(c) {
        LexStep::Skip(i + 1)
    } else if c == '=' && n == Some('=') {
        LexStep::Emit(TokenView::Eq, i + 2)
    } else if c == '!' && n == Some('=') {
        LexStep::Emit(TokenView::Ne, i + 2)
    } else if c == '!' {
        LexStep::Emit(TokenView::Not, i + 1)
    } else if c == '>' && n == Some('=') {
        LexStep::Emit(TokenView::Ge, i + 2)
    } else if c == '>' {
        LexStep::Emit(TokenView::Gt, i + 1)
    } else if c == '<' && n == Some('=') {
        LexStep::Emit(TokenView::Le, i + 2)
    } else if c == '<' {
        LexStep::Emit(TokenView::Lt, i + 1)
    } else if c == '&' && n == Some('&') {
        LexStep::Emit(TokenView::And, i + 2)
    } else if c == '|' && n == Some('|') {
        LexStep::Emit(TokenView::Or, i + 2)
    } else if c == '"' || c == '\'' {
        let e = scan(cs, i + 1, 0, c);
        if e >= cs.len() {
            LexStep::Fail("unterminated string literal"@)
        } else {
            LexStep::Emit(TokenView::Str(cs.subrange(i + 1, e)), e + 1)
        }
    } else if is_digit(c) || (c == '-' && (n matches Some(d) && is_digit(d))) {
        let start = if c == '-' {
            i + 1
        } else {
            i
        };
        let e = scan(cs, start, 1, c);
        let text = cs.subrange(i, e);
        if dot_count(text) <= 1 {
            LexStep::Emit(TokenView::Num(text), e)
        } else {
            LexStep::Fail("invalid number: "@ + text)
        }
    } else if is_word_start(c) {
        let e = scan(cs, i, 2, c);
        LexStep::Emit(word_token(cs.subrange(i, e)), e)
    } else {
        LexStep::Fail("unexpected character: "@ + seq![c])
    }
}

/// The tokens of `cs` from position `i` on, or the first error's message.
pub open spec fn lex_from(cs: Seq<char>, i: int) -> Result<Seq<TokenView>, Seq<char>>
    decreases cs.len() - i,
{
    if i < 0 || i >= cs.len() {
        Ok(Seq::empty())
    } else {
        match lex_step(cs, i) {
            LexStep::Skip(j) => if i < j <= cs.len() {
                lex_from(cs, j)
            } else {
                Ok(Seq::empty())
            },
            LexStep::Emit(t, j) => if i < j <= cs.len() {
                match lex_from(cs, j) {
                    Ok(ts) => Ok(seq![t] + ts),
                    Err(m) => Err(m),
                }
            } else {
                Ok(Seq::empty())
            },
            LexStep::Fail(m) => Err(m),
        }
    }
}

/// The tokens of a text, or the first error's message.
pub open spec fn lex(s: Seq<char>) -> Result<Seq<TokenView>, Seq<char>> {
    lex_from(s, 0)
}

pub proof fn lemma_scan_bounds(cs: Seq<char>, j: int, kind: u8, quote: char)
    requires
        0 <= j <= cs.len(),
    ensures
        j <= scan(cs, j, kind, quote) <= cs.len(),
    decreases cs.len() - j,
{
    if j < cs.len() && in_run(kind, quote, cs[j]) {
        lemma_scan_bounds(cs, j + 1, kind, quote);
    }
}

proof fn lemma_lex_step_advances(cs: Seq<char>, i: int)
    requires
        0 <= i < cs.len(),
    ensures
        match lex_step(cs, i) {
            LexStep::Skip(j) => i < j <= cs.len(),
            LexStep::Emit(_, j) => i < j <= cs.len(),
            LexStep::Fail(_) => true,
        },
{
    let c = cs[i];
    lemma_scan_bounds(cs, i + 1, 0, c);
    if i + 1 <= cs.len() {
        lemma_scan_bounds(cs, i + 1, 1, c);
    }
    lemma_scan_bounds(cs, i, 1, c);
    lemma_scan_bounds(cs, i, 2, c);
    lemma_scan_bounds(cs, i + 1, 2, c);
}

proof fn lemma_scan_to_quote(cs: Seq<char>, j: int, e: int, quote: char)
    requires
        0 <= j <= e < cs.len(),
        cs[e] == quote,
        forall|k: int| j <= k < e ==> cs[k] != quote,
    ensures
        scan(cs, j, 0, quote) == e,
    decreases e - j,
{
    if j < e {
        lemma_scan_to_quote(cs, j + 1, e, quote);
    }
}

/// A quoted string is read up to the next matching quote, whatever the
/// characters before it (spaces, operators, the other quote): at a quote at
/// position `i` whose next match is at `e`, the tokenizer emits the text
/// between them and goes on after `e`; a string with no matching quote
/// after it is an error.
pub proof fn law_string_literal(cs: Seq<char>, i: int)
    requires
        0 <= i < cs.len(),
        cs[i] == '"' || cs[i] == '\'',
    ensures
        forall|e: int|
            i < e < cs.len() && cs[e] == cs[i] && (forall|k: int| i < k < e ==> cs[k] != cs[i])
                ==> lex_step(cs, i) == LexStep::Emit(TokenView::Str(cs.subrange(i + 1, e)), e + 1),
        (forall|k: int| i < k < cs.len() ==> cs[k] != cs[i]) ==> lex_step(cs, i) is Fail,
{
    let q = cs[i];
    assert forall|e: int|
        i < e < cs.len() && cs[e] == q && (forall|k: int| i < k < e ==> cs[k] != q) implies lex_step(cs, i)
        == LexStep::Emit(TokenView::Str(cs.subrange(i + 1, e)), e + 1) by {
        lemma_scan_to_quote(cs, i + 1, e, q);
    }
    if forall|k: int| i < k < cs.len() ==> cs[k] != q {
        lemma_scan_all(cs, i + 1, q);
    }
}

proof fn lemma_scan_all(cs: Seq<char>, j: int, quote: char)
    requires
        0 <= j <= cs.len(),
        forall|k: int| j <= k < cs.len() ==> cs[k] != quote,
    ensures
        scan(cs, j, 0, quote) == cs.len(),
    decreases cs.len() - j,
{
    if j < cs.len() {
        lemma_scan_all(cs, j + 1, quote);
    }
}

/// A text in quotes reads as one string token holding exactly that text,
/// for every text without the quote character.
pub proof fn law_quoted_text(t: Seq<char>, q: char)
    requires
        q == '"' || q == '\'',
        forall|k: int| 0 <= k < t.len() ==> t[k] != q,
    ensures
        lex(seq![q] + t + seq![q]) == Ok::<Seq<TokenView>, Seq<char>>(seq![TokenView::Str(t)]),
{
    let cs = seq![q] + t + seq![q];
    let e: int = t.len() as int + 1;
    assert(cs[0] == q);
    assert(cs[e] == q);
    assert forall|k: int| 0 < k < e implies cs[k] != q by {
        assert(cs[k] == t[k - 1]);
    }
    law_string_literal(cs, 0);
    assert(cs.subrange(1, e) =~= t);
    assert(lex_step(cs, 0) == LexStep::Emit(TokenView::Str(t), e + 1));
    assert(lex_from(cs, e + 1) == Ok::<Seq<TokenView>, Seq<char>>(Seq::empty()));
    assert(seq![TokenView::Str(t)] + Seq::<TokenView>::empty() =~= seq![TokenView::Str(t)]);
}

proof fn lemma_scan_run(cs: Seq<char>, j: int, e: int, kind: u8, quote: char)
    requires
        0 <= j <= e <= cs.len(),
        forall|k: int| j <= k < e ==> in_run(kind, quote, #[trigger] cs[k]),
        e == cs.len() || !in_run(kind, quote, cs[e]),
    ensures
        scan(cs, j, kind, quote) == e,
    decreases e - j,
{
    if j < e {
        lemma_scan_run(cs, j + 1, e, kind, quote);
    }
}

/// A word (a letter or underscore, then letters, digits, underscores and
/// dots) reads as one token: `true`, `false` and `null` as their literals,
/// any other word as the field path it spells.
pub proof fn law_word(w: Seq<char>)
    requires
        w.len() > 0,
        is_word_start(w[0]),
        forall|k: int| 0 <= k < w.len() ==> is_word_char(#[trigger] w[k]),
    ensures
        lex(w) == Ok::<Seq<TokenView>, Seq<char>>(seq![word_token(w)]),
        w != "true"@ && w != "false"@ && w != "null"@ ==> lex(w) == Ok::<Seq<TokenView>, Seq<char>>(
            seq![TokenView::Ident(w)],
        ),
{
    lemma_scan_run(w, 0, w.len() as int, 2, w[0]);
    assert(w.subrange(0, w.len() as int) =~= w);
    assert(!is_space(w[0]));
    assert(!is_digit(w[0]));
    assert(lex_step(w, 0) == LexStep::Emit(word_token(w), w.len() as int));
    assert(lex_from(w, w.len() as int) == Ok::<Seq<TokenView>, Seq<char>>(Seq::empty()));
    assert(seq![word_token(w)] + Seq::<TokenView>::empty() =~= seq![word_token(w)]);
    assert(lex_from(w, 0) == Ok::<Seq<TokenView>, Seq<char>>(seq![word_token(w)]));
}

/// A number (digits and dots, starting with a digit, with at most one dot)
/// reads as one number token holding its text.
pub proof fn law_number(d: Seq<char>)
    requires
        d.len() > 0,
        is_digit(d[0]),
        forall|k: int| 0 <= k < d.len() ==> is_number_char(#[trigger] d[k]),
        dot_count(d) <= 1,
    ensures
        lex(d) == Ok::<Seq<TokenView>, Seq<char>>(seq![TokenView::Num(d)]),
{
    lemma_scan_run(d, 0, d.len() as int, 1, d[0]);
    assert(d.subrange(0, d.len() as int) =~= d);
    assert(lex_step(d, 0) == LexStep::Emit(TokenView::Num(d), d.len() as int));
    assert(lex_from(d, d.len() as int) == Ok::<Seq<TokenView>, Seq<char>>(Seq::empty()));
    assert(seq![TokenView::Num(d)] + Seq::<TokenView>::empty() =~= seq![TokenView::Num(d)]);
    assert(lex_from(d, 0) == Ok::<Seq<TokenView>, Seq<char>>(seq![TokenView::Num(d)]));
}

/// The characters of a text.
pub fn chars_of(s: &str) -> (r: Vec<char>)
    ensures
        r@ == s@,
{
    let n = s.unicode_len();
    let mut out: Vec<char> = Vec::new();
    let mut i: usize = 0;
    while i < n
        invariant
            n == s@.len(),
            i <= n,
            out@ == s@.take(i as int),
        decreases n - i,
    {
        out.push(s.get_char(i));
        assert(out@ =~= s@.take(i + 1));
        i += 1;
    }
    assert(s@.take(n as int) =~= s@);
    out
}

/// The end of the run of kind `kind` from `j` (see `scan`).
pub fn scan_exec(cs: &Vec<char>, j: usize, kind: u8, quote: char) -> (r: usize)
    requires
        j <= cs@.len(),
    ensures
        r as int == scan(cs@, j as int, kind, quote),
        j <= r <= cs@.len(),
{
    let mut k = j;
    while k < cs.len()
        invariant
            j <= k <= cs@.len(),
            scan(cs@, j as int, kind, quote) == scan(cs@, k as int, kind, quote),
        decreases cs.len() - k,
    {
        let c = cs[k];
        let inside = if kind == 0 {
            c != quote
        } else if kind == 1 {
            is_number_char_exec(c)
        } else {
            is_word_char_exec(c)
        };
        if !inside {
            return k;
        }
        k += 1;
    }
    k
}

fn is_digit_exec(c: char) -> (r: bool)
    ensures
        r == is_digit(c),
{
    '0' <= c && c <= '9'
}

fn is_alpha_exec(c: char) -> (r: bool)
    ensures
        r == is_alpha(c),
{
    ('a' <= c && c <= 'z') || ('A' <= c && c <= 'Z')
}

fn is_number_char_exec(c: char) -> (r: bool)
    ensures
        r == is_number_char(c),
{
    is_digit_exec(c) || c == '.'
}

fn is_word_char_exec(c: char) -> (r: bool)
    ensures
        r == is_word_char(c),
{
    is_alpha_exec(c) || is_digit_exec(c) || c == '_' || c == '.'
}

/// The text of characters `from..to` of `input`.
fn text_of(input: &str, from: usize, to: usize) -> (r: String)
    requires
        from <= to <= input@.len(),
    ensures
        r@ == input@.subrange(from as int, to as int),
{
    String::from_str(input.substring_char(from, to))
}

/// How many dots `cs[from..to]` holds.
fn dots_in(cs: &Vec<char>, from: usize, to: usize) -> (r: usize)
    requires
        from <= to <= cs@.len(),
    ensures
        r as nat == dot_count(cs@.subrange(from as int, to as int)),
{
    let mut n: usize = 0;
    let mut k = from;
    while k < to
        invariant
            from <= k <= to,
            to <= cs@.len(),
            n as nat == dot_count(cs@.subrange(from as int, k as int)),
            n <= k - from,
        decreases to - k,
    {
        assert(cs@.subrange(from as int, k + 1).drop_last() =~= cs@.subrange(from as int, k as int));
        if cs[k] == '.' {
            n += 1;
        }
        k += 1;
    }
    n
}

/// Splits an expression into tokens (see `lex_step`); the first error gives
/// a parse error with its message.
pub fn tokenize(input: &str) -> (r: Result<Vec<Token>, ExpressionError>)
    ensures
        match r {
            Ok(ts) => lex(input@) == Ok::<Seq<TokenView>, Seq<char>>(tokens_view(ts@)),
            Err(e) => lex(input@) matches Err(m) && (e matches ExpressionError::Parse { message }
                && message@ == m),
        },
{
    let cs = chars_of(input);
    let ghost all = cs@;
    let mut tokens: Vec<Token> = Vec::new();
    let mut i: usize = 0;
    while i < cs.len()
        invariant
            all == cs@,
            all == input@,
            i <= cs@.len(),
            lex(all) == (match lex_from(all, i as int) {
                Ok(ts) => Ok(tokens_view(tokens@) + ts),
                Err(m) => Err(m),
            }),
        decreases cs.len() - i,
    {
        proof {
            lemma_lex_step_advances(all, i as int);
        }
        let ghost step = lex_step(all, i as int);
        let ghost t0 = tokens@;
        let c = cs[i];
        let n: Option<char> = if i + 1 < cs.len() {
            Some(cs[i + 1])
        } else {
            None
        };
        assert(n == next_char(all, i as int));
        let mut emitted: Option<Token> = None;
        let next: usize;
        if c == ' ' || c == '\t' || c == '\r' || c == '\n' {
            next = i + 1;
        } else if c == '=' && n == Some('=') {
            emitted = Some(Token::Eq);
            next = i + 2;
        } else if c == '!' && n == Some('=') {
            emitted = Some(Token::Ne);
            next = i + 2;
        } else if c == '!' {
            emitted = Some(Token::Not);
            next = i + 1;
        } else if c == '>' && n == Some('=') {
            emitted = Some(Token::Ge);
            next = i + 2;
        } else if c == '>' {
            emitted = Some(Token::Gt);
            next = i + 1;
        } else if c == '<' && n == Some('=') {
            emitted = Some(Token::Le);
            next = i + 2;
        } else if c == '<' {
            emitted = Some(Token::Lt);
            next = i + 1;
        } else if c == '&' && n == Some('&') {
            emitted = Some(Token::And);
            next = i + 2;
        } else if c == '|' && n == Some('|') {
            emitted = Some(Token::Or);
            next = i + 2;
        } else if c == '"' || c == '\'' {
            let e = scan_exec(&cs, i + 1, 0, c);
            if e >= cs.len() {
                return Err(ExpressionError::Parse { message: String::from_str("unterminated string literal") });
            }
            emitted = Some(Token::Str(text_of(input, i + 1, e)));
            next = e + 1;
        } else if is_digit_exec(c) || (c == '-' && match n {
            Some(d) => is_digit_exec(d),
            None => false,
        }) {
            let start = if c == '-' {
                i + 1
            } else {
                i
            };
            let e = scan_exec(&cs, start, 1, c);
            let text = text_of(input, i, e);
            if dots_in(&cs, i, e) > 1 {
                let mut message = String::from_str("invalid number: ");
                message.append(text.as_str());
                return Err(ExpressionError::Parse { message });
            }
            emitted = Some(Token::Num(text));
            next = e;
        } else if is_alpha_exec(c) || c == '_' {
            let e = scan_exec(&cs, i, 2, c);
            let w = text_of(input, i, e);
            proof {
                reveal_strlit("true");
                reveal_strlit("false");
                reveal_strlit("null");
            }
            let t = if crate::text::str_eq(w.as_str(), "true") {
                Token::Bool(true)
            } else if crate::text::str_eq(w.as_str(), "false") {
                Token::Bool(false)
            } else if crate::text::str_eq(w.as_str(), "null") {
                Token::Null
            } else {
                Token::Ident(w)
            };
            emitted = Some(t);
            next = e;
        } else {
            let mut message = String::from_str("unexpected character: ");
            message.append(input.substring_char(i, i + 1));
            assert(input@.subrange(i as int, i + 1) =~= seq![c]);
            return Err(ExpressionError::Parse { message });
        }
        match emitted {
            Some(t) => {
                assert(step == LexStep::Emit(t@, next as int));
                tokens.push(t);
                assert(tokens_view(tokens@) =~= tokens_view(t0) + seq![t@]);
            },
            None => {
                assert(step == LexStep::Skip(next as int));
            },
        }
        proof {
            let ii = i as int;
            let jj = next as int;
            assert(ii < jj <= all.len());
            match lex_from(all, jj) {
                Ok(ts) => {
                    if step is Emit {
                        let t = step->Emit_0;
                        assert(tokens_view(t0) + (seq![t] + ts) =~= tokens_view(tokens@) + ts);
                    }
                },
                Err(_) => {},
            }
        }
        i = next;
    }
    assert(tokens_view(tokens@) + Seq::<TokenView>::empty() =~= tokens_view(tokens@));
    Ok(tokens)
}

/// An operand of a condition: a literal, or a field path resolved against
/// the data. A number keeps its literal text.
#[derive(Debug)]
pub enum Operand {
    Str(String),
    Num(String),
    Bool(bool),
    Null,
    Path(String),
}

/// A comparison operator.
#[derive(Debug, Clone, Copy, PartialEq, Eq, Structural)]
pub enum CompOp {
    Eq,
    Ne,
    Gt,
    Lt,
    Ge,
    Le,
}

/// A parsed condition.
#[derive(Debug)]
pub enum Expr {
    Or(Box<Expr>, Box<Expr>),
    And(Box<Expr>, Box<Expr>),
    Not(Box<Expr>),
    Compare(Operand, CompOp, Operand),
    Value(Operand),
}

/// Why a token list does not parse. Positions index the token list.
#[derive(Debug, Clone, Copy, PartialEq, Eq, Structural)]
pub enum ParseFailure {
    /// There are no tokens.
    Empty,
    /// The tokens end where a value is expected.
    UnexpectedEnd,
    /// The token at this position is not a value where one is expected.
    ExpectedValue(usize),
    /// A complete condition is followed by this token.
    Trailing(usize),
}

/// The model of an operand.
pub enum OperandView {
    Str(Seq<char>),
    Num(Seq<char>),
    Bool(bool),
    Null,
    Path(Seq<char>),
}

/// The model of a condition.
pub enum ExprView {
    Or(Box<ExprView>, Box<ExprView>),
    And(Box<ExprView>, Box<ExprView>),
    Not(Box<ExprView>),
    Compare(OperandView, CompOp, OperandView),
    Value(OperandView),
}

pub open spec fn operand_view(o: Operand) -> OperandView {
    match o {
        Operand::Str(s) => OperandView::Str(s@),
        Operand::Num(s) => OperandView::Num(s@),
        Operand::Bool(b) => OperandView::Bool(b),
        Operand::Null => OperandView::Null,
        Operand::Path(s) => OperandView::Path(s@),
    }
}

pub open spec fn expr_view(e: Expr) -> ExprView
    decreases e,
{
    match e {
        Expr::Or(a, b) => ExprView::Or(Box::new(expr_view(*a)), Box::new(expr_view(*b))),
        Expr::And(a, b) => ExprView::And(Box::new(expr_view(*a)), Box::new(expr_view(*b))),
        Expr::Not(a) => ExprView::Not(Box::new(expr_view(*a))),
        Expr::Compare(l, op, r) => ExprView::Compare(operand_view(l), op, operand_view(r)),
        Expr::Value(o) => ExprView::Value(operand_view(o)),
    }
}

/// A parse of a prefix: the result and the position after it.
pub type Parsed<A> = Result<(A, int), ParseFailure>;

/// `primary = Str | Num | Bool | Null | Ident`
pub open spec fn p_primary(ts: Seq<TokenView>, i: int) -> Parsed<OperandView> {
    if i < 0 || i >= ts.len() {
        Err(ParseFailure::UnexpectedEnd)
    } else {
        match ts[i] {
            TokenView::Str(s) => Ok((OperandView::Str(s), i + 1)),
            TokenView::Num(s) => Ok((OperandView::Num(s), i + 1)),
            TokenView::Bool(b) => Ok((OperandView::Bool(b), i + 1)),
            TokenView::Null => Ok((OperandView::Null, i + 1)),
            TokenView::Ident(p) => Ok((OperandView::Path(p), i + 1)),
            _ => Err(ParseFailure::ExpectedValue(i as usize)),
        }
    }
}

/// The comparison operator a token stands for.
pub open spec fn comp_op(t: TokenView) -> Option<CompOp> {
    match t {
        TokenView::Eq => Some(CompOp::Eq),
        TokenView::Ne => Some(CompOp::Ne),
        TokenView::Gt => Some(CompOp::Gt),
        TokenView::Lt => Some(CompOp::Lt),
        TokenView::Ge => Some(CompOp::Ge),
        TokenView::Le => Some(CompOp::Le),
        _ => None,
    }
}

/// `comparison = primary ( op primary )?`
pub open spec fn p_comparison(ts: Seq<TokenView>, i: int) -> Parsed<ExprView> {
    match p_primary(ts, i) {
        Err(e) => Err(e),
        Ok((l, j)) => if j >= ts.len() {
            Ok((ExprView::Value(l), j))
        } else {
            match comp_op(ts[j]) {
                None => Ok((ExprView::Value(l), j)),
                Some(op) => match p_primary(ts, j + 1) {
                    Err(e) => Err(e),
                    Ok((r, k)) => Ok((ExprView::Compare(l, op, r), k)),
                },
            }
        },
    }
}

/// `not_expr = "!" not_expr | comparison`
pub open spec fn p_not(ts: Seq<TokenView>, i: int) -> Parsed<ExprView>
    decreases ts.len() - i,
{
    if 0 <= i < ts.len() && ts[i] is Not {
        match p_not(ts, i + 1) {
            Err(e) => Err(e),
            Ok((e, j)) => Ok((ExprView::Not(Box::new(e)), j)),
        }
    } else {
        p_comparison(ts, i)
    }
}

/// The rest of `and_expr = not_expr ( "&&" not_expr )*` after `left`,
/// from position `j`.
pub open spec fn p_and_rest(ts: Seq<TokenView>, left: ExprView, j: int) -> Parsed<ExprView>
    decreases ts.len() - j,
{
    if 0 <= j < ts.len() && ts[j] is And {
        match p_not(ts, j + 1) {
            Err(e) => Err(e),
            Ok((r, k)) => if j < k <= ts.len() {
                p_and_rest(ts, ExprView::And(Box::new(left), Box::new(r)), k)
            } else {
                Ok((left, j))
            },
        }
    } else {
        Ok((left, j))
    }
}

/// `and_expr = not_expr ( "&&" not_expr )*`
pub open spec fn p_and(ts: Seq<TokenView>, i: int) -> Parsed<ExprView> {
    match p_not(ts, i) {
        Err(e) => Err(e),
        Ok((l, j)) => p_and_rest(ts, l, j),
    }
}

/// The rest of `or_expr = and_expr ( "||" and_expr )*` after `left`, from
/// position `j`.
pub open spec fn p_or_rest(ts: Seq<TokenView>, left: ExprView, j: int) -> Parsed<ExprView>
    decreases ts.len() - j,
{
    if 0 <= j < ts.len() && ts[j] is Or {
        match p_and(ts, j + 1) {
            Err(e) => Err(e),
            Ok((r, k)) => if j < k <= ts.len() {
                p_or_rest(ts, ExprView::Or(Box::new(left), Box::new(r)), k)
            } else {
                Ok((left, j))
            },
        }
    } else {
        Ok((left, j))
    }
}

/// `or_expr = and_expr ( "||" and_expr )*`
pub open spec fn p_or(ts: Seq<TokenView>, i: int) -> Parsed<ExprView> {
    match p_and(ts, i) {
        Err(e) => Err(e),
        Ok((l, j)) => p_or_rest(ts, l, j),
    }
}

/// A whole condition: a non-empty token list that is one `or_expr`.
pub open spec fn parse_spec(ts: Seq<TokenView>) -> Result<ExprView, ParseFailure> {
    if ts.len() == 0 {
        Err(ParseFailure::Empty)
    } else {
        match p_or(ts, 0) {
            Err(e) => Err(e),
            Ok((e, j)) => if j < ts.len() {
                Err(ParseFailure::Trailing(j as usize))
            } else {
                Ok(e)
            },
        }
    }
}

proof fn lemma_primary_adv(ts: Seq<TokenView>, i: int)
    ensures
        p_primary(ts, i) matches Ok((_, j)) ==> 0 <= i < j <= ts.len(),
{
}

proof fn lemma_comparison_adv(ts: Seq<TokenView>, i: int)
    ensures
        p_comparison(ts, i) matches Ok((_, j)) ==> 0 <= i < j <= ts.len(),
{
    lemma_primary_adv(ts, i);
    if let Ok((_, j)) = p_primary(ts, i) {
        lemma_primary_adv(ts, j + 1);
    }
}

proof fn lemma_not_adv(ts: Seq<TokenView>, i: int)
    ensures
        p_not(ts, i) matches Ok((_, j)) ==> 0 <= i < j <= ts.len(),
    decreases ts.len() - i,
{
    if 0 <= i < ts.len() && ts[i] is Not {
        lemma_not_adv(ts, i + 1);
    } else {
        lemma_comparison_adv(ts, i);
    }
}

proof fn lemma_and_rest_adv(ts: Seq<TokenView>, left: ExprView, j: int)
    requires
        0 <= j <= ts.len(),
    ensures
        p_and_rest(ts, left, j) matches Ok((_, k)) ==> j <= k <= ts.len(),
    decreases ts.len() - j,
{
    if 0 <= j < ts.len() && ts[j] is And {
        lemma_not_adv(ts, j + 1);
        if let Ok((r, k)) = p_not(ts, j + 1) {
            lemma_and_rest_adv(ts, ExprView::And(Box::new(left), Box::new(r)), k);
        }
    }
}

proof fn lemma_and_adv(ts: Seq<TokenView>, i: int)
    ensures
        p_and(ts, i) matches Ok((_, j)) ==> 0 <= i < j <= ts.len(),
{
    lemma_not_adv(ts, i);
    if let Ok((l, j)) = p_not(ts, i) {
        lemma_and_rest_adv(ts, l, j);
    }
}

fn primary(ts: &Vec<Token>, i: usize) -> (r: Result<(Operand, usize), ParseFailure>)
    requires
        i <= ts@.len(),
    ensures
        match r {
            Ok((o, j)) => p_primary(tokens_view(ts@), i as int) == Ok::<
                (OperandView, int),
                ParseFailure,
            >((operand_view(o), j as int)),
            Err(e) => p_primary(tokens_view(ts@), i as int) == Err::<
                (OperandView, int),
                ParseFailure,
            >(e),
        },
{
    if i >= ts.len() {
        return Err(ParseFailure::UnexpectedEnd);
    }
    let o = match &ts[i] {
        Token::Str(s) => Operand::Str(s.clone()),
        Token::Num(s) => Operand::Num(s.clone()),
        Token::Bool(b) => Operand::Bool(*b),
        Token::Null => Operand::Null,
        Token::Ident(p) => Operand::Path(p.clone()),
        _ => {
            return Err(ParseFailure::ExpectedValue(i));
        },
    };
    Ok((o, i + 1))
}

fn comp_op_exec(t: &Token) -> (r: Option<CompOp>)
    ensures
        r == comp_op(t@),
{
    match t {
        Token::Eq => Some(CompOp::Eq),
        Token::Ne => Some(CompOp::Ne),
        Token::Gt => Some(CompOp::Gt),
        Token::Lt => Some(CompOp::Lt),
        Token::Ge => Some(CompOp::Ge),
        Token::Le => Some(CompOp::Le),
        _ => None,
    }
}

fn comparison(ts: &Vec<Token>, i: usize) -> (r: Result<(Expr, usize), ParseFailure>)
    requires
        i <= ts@.len(),
    ensures
        match r {
            Ok((e, j)) => p_comparison(tokens_view(ts@), i as int) == Ok::<
                (ExprView, int),
                ParseFailure,
            >((expr_view(e), j as int)),
            Err(f) => p_comparison(tokens_view(ts@), i as int) == Err::<(ExprView, int), ParseFailure>(
                f,
            ),
        },
{
    let ghost tv = tokens_view(ts@);
    let (l, j) = primary(ts, i)?;
    proof {
        lemma_primary_adv(tv, i as int);
    }
    if j >= ts.len() {
        return Ok((Expr::Value(l), j));
    }
    assert(tv[j as int] == ts@[j as int]@);
    match comp_op_exec(&ts[j]) {
        None => Ok((Expr::Value(l), j)),
        Some(op) => {
            let (r, k) = primary(ts, j + 1)?;
            Ok((Expr::Compare(l, op, r), k))
        },
    }
}

fn not_expr(ts: &Vec<Token>, i: usize) -> (r: Result<(Expr, usize), ParseFailure>)
    requires
        i <= ts@.len(),
    ensures
        match r {
            Ok((e, j)) => p_not(tokens_view(ts@), i as int) == Ok::<
                (ExprView, int),
                ParseFailure,
            >((expr_view(e), j as int)),
            Err(f) => p_not(tokens_view(ts@), i as int) == Err::<(ExprView, int), ParseFailure>(f),
        },
    decreases ts@.len() - i,
{
    let ghost tv = tokens_view(ts@);
    if i < ts.len() && matches!(ts[i], Token::Not) {
        assert(tv[i as int] is Not);
        let (e, j) = not_expr(ts, i + 1)?;
        let ghost ev = expr_view(e);
        let b = Box::new(e);
        assert(expr_view(Expr::Not(b)) == ExprView::Not(Box::new(ev)));
        Ok((Expr::Not(b), j))
    } else {
        proof {
            if i < ts@.len() {
                assert(tv[i as int] == ts@[i as int]@);
            }
        }
        comparison(ts, i)
    }
}

fn and_expr(ts: &Vec<Token>, i: usize) -> (r: Result<(Expr, usize), ParseFailure>)
    requires
        i <= ts@.len(),
    ensures
        match r {
            Ok((e, j)) => p_and(tokens_view(ts@), i as int) == Ok::<
                (ExprView, int),
                ParseFailure,
            >((expr_view(e), j as int)),
            Err(f) => p_and(tokens_view(ts@), i as int) == Err::<(ExprView, int), ParseFailure>(f),
        },
{
    let ghost tv = tokens_view(ts@);
    let (mut left, mut j) = not_expr(ts, i)?;
    proof {
        lemma_not_adv(tv, i as int);
    }
    while j < ts.len() && matches!(ts[j], Token::And)
        invariant
            tv == tokens_view(ts@),
            j <= ts@.len(),
            p_and(tv, i as int) == p_and_rest(tv, expr_view(left), j as int),
        decreases ts@.len() - j,
    {
        assert(tv[j as int] is And);
        let (right, k) = not_expr(ts, j + 1)?;
        proof {
            lemma_not_adv(tv, j + 1);
        }
        let ghost lv = expr_view(left);
        let ghost rv = expr_view(right);
        left = Expr::And(Box::new(left), Box::new(right));
        assert(expr_view(left) == ExprView::And(Box::new(lv), Box::new(rv)));
        j = k;
    }
    proof {
        if j < ts@.len() {
            assert(tv[j as int] == ts@[j as int]@);
        }
    }
    Ok((left, j))
}

fn or_expr(ts: &Vec<Token>, i: usize) -> (r: Result<(Expr, usize), ParseFailure>)
    requires
        i <= ts@.len(),
    ensures
        match r {
            Ok((e, j)) => p_or(tokens_view(ts@), i as int) == Ok::<
                (ExprView, int),
                ParseFailure,
            >((expr_view(e), j as int)),
            Err(f) => p_or(tokens_view(ts@), i as int) == Err::<(ExprView, int), ParseFailure>(f),
        },
{
    let ghost tv = tokens_view(ts@);
    let (mut left, mut j) = and_expr(ts, i)?;
    proof {
        lemma_and_adv(tv, i as int);
    }
    while j < ts.len() && matches!(ts[j], Token::Or)
        invariant
            tv == tokens_view(ts@),
            j <= ts@.len(),
            p_or(tv, i as int) == p_or_rest(tv, expr_view(left), j as int),
        decreases ts@.len() - j,
    {
        assert(tv[j as int] is Or);
        let (right, k) = and_expr(ts, j + 1)?;
        proof {
            lemma_and_adv(tv, j + 1);
        }
        let ghost lv = expr_view(left);
        let ghost rv = expr_view(right);
        left = Expr::Or(Box::new(left), Box::new(right));
        assert(expr_view(left) == ExprView::Or(Box::new(lv), Box::new(rv)));
        j = k;
    }
    proof {
        if j < ts@.len() {
            assert(tv[j as int] == ts@[j as int]@);
        }
    }
    Ok((left, j))
}

/// Parses a token list as one condition (see `parse_spec`).
pub fn parse_tokens(ts: &Vec<Token>) -> (r: Result<Expr, ParseFailure>)
    ensures
        match r {
            Ok(e) => parse_spec(tokens_view(ts@)) == Ok::<ExprView, ParseFailure>(expr_view(e)),
            Err(f) => parse_spec(tokens_view(ts@)) == Err::<ExprView, ParseFailure>(f),
        },
{
    if ts.len() == 0 {
        return Err(ParseFailure::Empty);
    }
    let (e, j) = or_expr(ts, 0)?;
    if j < ts.len() {
        return Err(ParseFailure::Trailing(j));
    }
    Ok(e)
}

proof fn lemma_scan_shift(cs: Seq<char>, start: int, j: int, kind: u8, quote: char)
    requires
        0 <= start <= j <= cs.len(),
    ensures
        scan(cs.subrange(start, cs.len() as int), j - start, kind, quote) + start == scan(
            cs,
            j,
            kind,
            quote,
        ),
    decreases cs.len() - j,
{
    let sub = cs.subrange(start, cs.len() as int);
    if j < cs.len() {
        assert(sub[j - start] == cs[j]);
        if in_run(kind, quote, cs[j]) {
            lemma_scan_shift(cs, start, j + 1, kind, quote);
        }
    }
}

/// The member at a dotted path: each dot-separated segment, in turn, names
/// a member of the value reached so far; `None` when one is missing.
pub open spec fn path_lookup(v: JsonView, path: Seq<char>) -> Option<JsonView>
    decreases path.len(),
{
    let k = scan(path, 0, 0, '.');
    match crate::json::json_get(v, path.subrange(0, k)) {
        None => None,
        Some(w) => if 0 <= k < path.len() {
            path_lookup(w, path.subrange(k + 1, path.len() as int))
        } else {
            Some(w)
        },
    }
}

/// The member of `data` at a dotted field path (see `path_lookup`).
pub fn resolve_path<'a>(data: &'a JsonValue, path: &str) -> (r: Option<&'a JsonValue>)
    ensures
        opt_json_view(r) == path_lookup(data@, path@),
{
    let cs = chars_of(path);
    let ghost all = path@;
    let mut current = data;
    let mut start: usize = 0;
    assert(all.subrange(0, all.len() as int) =~= all);
    loop
        invariant
            cs@ == all,
            all == path@,
            start <= all.len(),
            path_lookup(data@, all) == path_lookup(current@, all.subrange(start as int, all.len() as int)),
        decreases all.len() - start,
    {
        let k = scan_exec(&cs, start, 0, '.');
        let ghost rest = all.subrange(start as int, all.len() as int);
        proof {
            lemma_scan_shift(all, start as int, start as int, 0, '.');
            assert(rest.subrange(0, k - start) =~= all.subrange(start as int, k as int));
        }
        let seg = text_of(path, start, k);
        match current.get(seg.as_str()) {
            None => return None,
            Some(w) => {
                if k < cs.len() {
                    proof {
                        assert(rest.subrange(k - start + 1, rest.len() as int) =~= all.subrange(
                            k + 1,
                            all.len() as int,
                        ));
                    }
                    current = w;
                    start = k + 1;
                } else {
                    return Some(w);
                }
            },
        }
    }
}

} // verus!

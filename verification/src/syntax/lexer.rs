//! The lexer: source text to tokens.
//!
//! A token starts where white space and `//` comments end; identifiers,
//! numbers and two-character operators are read as far as they go.

use vstd::prelude::*;
use crate::version::{is_digit, decimal_value, all_digits};
use crate::syntax::escapes::unescape;
use crate::text::{char_width, chars_of, string_from_range, is_space, is_space_char, utf8_width};

verus! {

/// Operators and punctuation.
#[derive(Debug, Clone, Copy, PartialEq, Eq, Structural)]
pub enum Sym {
    Plus,
    Minus,
    Star,
    Slash,
    Percent,
    EqEq,
    NotEq,
    Lt,
    Le,
    Gt,
    Ge,
    AndAnd,
    OrOr,
    Bang,
    Assign,
    Arrow,
    FatArrow,
    Dot,
    Comma,
    Colon,
    ColonColon,
    Semi,
    Question,
    LParen,
    RParen,
    LBracket,
    RBracket,
    LBrace,
    RBrace,
}

/// What a token is.
#[derive(Debug, Clone, PartialEq, Eq)]
pub enum TokenKind {
    /// An identifier or a keyword.
    Word(String),
    /// An integer literal and its value.
    Int(i64),
    /// A number with a fractional part, as written.
    Float(String),
    /// A string literal (quoted or triple-quoted), its escapes decoded.
    Str(String),
    /// An interpolated string `f"..."`: the text between the quotes.
    FStr(String),
    /// An operator or punctuation mark.
    Punct(Sym),
}

/// A position in the source: byte offsets of the start and end, and the
/// line and column (both from 1) of the start.
#[derive(Debug, Clone, Copy, PartialEq, Eq, Structural)]
pub struct Span {
    pub start: usize,
    pub end: usize,
    pub line: usize,
    pub column: usize,
}

/// A token with its place in the source: `start..end` are character
/// indices.
#[derive(Debug, Clone)]
pub struct Token {
    pub kind: TokenKind,
    pub start: usize,
    pub end: usize,
    pub span: Span,
}

/// Why the source could not be split into tokens.
#[derive(Debug, Clone, PartialEq, Eq)]
pub enum LexError {
    /// A character that starts no token.
    UnexpectedChar(usize),
    /// A string literal without its closing quote.
    UnterminatedString(usize),
    /// An integer literal too large for a 64-bit integer.
    IntegerTooLarge(usize),
}

pub open spec fn is_alpha(c: char) -> bool {
    ('a' <= c && c <= 'z') || ('A' <= c && c <= 'Z')
}

/// A character that can start an identifier.
pub open spec fn is_ident_start(c: char) -> bool {
    is_alpha(c) || c == '_'
}

/// A character that can continue an identifier.
pub open spec fn is_ident_char(c: char) -> bool {
    is_ident_start(c) || is_digit(c)
}

/// The text of an operator.
pub open spec fn sym_text(s: Sym) -> Seq<char> {
    match s {
        Sym::Plus => seq!['+'],
        Sym::Minus => seq!['-'],
        Sym::Star => seq!['*'],
        Sym::Slash => seq!['/'],
        Sym::Percent => seq!['%'],
        Sym::EqEq => seq!['=', '='],
        Sym::NotEq => seq!['!', '='],
        Sym::Lt => seq!['<'],
        Sym::Le => seq!['<', '='],
        Sym::Gt => seq!['>'],
        Sym::Ge => seq!['>', '='],
        Sym::AndAnd => seq!['&', '&'],
        Sym::OrOr => seq!['|', '|'],
        Sym::Bang => seq!['!'],
        Sym::Assign => seq!['='],
        Sym::Arrow => seq!['-', '>'],
        Sym::FatArrow => seq!['=', '>'],
        Sym::Dot => seq!['.'],
        Sym::Comma => seq![','],
        Sym::Colon => seq![':'],
        Sym::ColonColon => seq![':', ':'],
        Sym::Semi => seq![';'],
        Sym::Question => seq!['?'],
        Sym::LParen => seq!['('],
        Sym::RParen => seq![')'],
        Sym::LBracket => seq!['['],
        Sym::RBracket => seq![']'],
        Sym::LBrace => seq!['{'],
        Sym::RBrace => seq!['}'],
    }
}

/// The index of the first line break at or after `j`, or the end.
pub open spec fn line_end(s: Seq<char>, j: int) -> int
    decreases s.len() - j,
{
    if j >= s.len() || j < 0 {
        s.len() as int
    } else if s[j] == '\n' {
        j
    } else {
        line_end(s, j + 1)
    }
}

/// A line end lies between its start and the end of the text.
pub proof fn lemma_line_end(s: Seq<char>, j: int)
    requires
        0 <= j <= s.len(),
    ensures
        j <= line_end(s, j) <= s.len(),
        line_end(s, j) < s.len() ==> s[line_end(s, j)] == '\n',
        forall|k: int| j <= k < line_end(s, j) ==> s[k] != '\n',
    decreases s.len() - j,
{
    if j < s.len() && s[j] != '\n' {
        lemma_line_end(s, j + 1);
    }
}

/// The position where white space and `//` comments starting at `j` end.
pub open spec fn skip_trivia(s: Seq<char>, j: int) -> int
    decreases s.len() - j,
{
    if j < 0 || j >= s.len() {
        j
    } else if is_space(s[j]) {
        skip_trivia(s, j + 1)
    } else if j + 1 < s.len() && s[j] == '/' && s[j + 1] == '/' {
        proof { lemma_line_end(s, j + 2); }
        skip_trivia(s, line_end(s, j + 2))
    } else {
        j
    }
}

/// A string body: no unescaped `"`, and every backslash escapes a
/// character.
pub open spec fn string_body(s: Seq<char>) -> bool
    decreases s.len(),
{
    if s.len() == 0 {
        true
    } else if s[0] == '"' {
        false
    } else if s[0] == '\\' {
        s.len() >= 2 && string_body(s.skip(2))
    } else {
        string_body(s.drop_first())
    }
}

/// `s[j..j+3]` is `"""`.
pub open spec fn triple_at(s: Seq<char>, j: int) -> bool {
    0 <= j && j + 2 < s.len() && s[j] == '"' && s[j + 1] == '"' && s[j + 2] == '"'
}

/// `text` is written as a token of kind `kind`.
pub open spec fn token_text(text: Seq<char>, kind: TokenKind) -> bool {
    match kind {
        TokenKind::Word(w) => text.len() > 0 && is_ident_start(text[0])
            && (forall|i: int| 0 <= i < text.len() ==> is_ident_char(#[trigger] text[i])) && w@ == text,
        TokenKind::Int(v) => text.len() > 0 && all_digits(text) && v == decimal_value(text),
        TokenKind::Float(f) => f@ == text && exists|d: int| 0 < d < text.len() - 1 && text[d] == '.'
            && all_digits(text.take(d)) && all_digits(text.skip(d + 1)),
        TokenKind::Str(c) => {
            ||| (text.len() >= 6 && triple_at(text, 0) && triple_at(text, text.len() - 3)
                && (forall|j: int| 3 <= j < text.len() - 3 ==> !#[trigger] triple_at(text, j))
                && c@ == unescape(text.subrange(3, text.len() - 3)))
            ||| (text.len() >= 2 && text[0] == '"' && text[text.len() - 1] == '"'
                && string_body(text.subrange(1, text.len() - 1))
                && c@ == unescape(text.subrange(1, text.len() - 1)))
        },
        TokenKind::FStr(b) => text.len() >= 3 && text[0] == 'f' && text[1] == '"' && text[text.len() - 1] == '"'
            && string_body(text.subrange(2, text.len() - 1)) && b@ == text.subrange(2, text.len() - 1),
        TokenKind::Punct(p) => text == sym_text(p),
    }
}

/// The token ending at `end` is as long as it can be: the character after
/// it could not have continued it.
pub open spec fn maximal(s: Seq<char>, kind: TokenKind, start: int, end: int) -> bool {
    let next = if end < s.len() { Some(s[end]) } else { None };
    match kind {
        TokenKind::Word(w) => (next matches Some(c) ==> !is_ident_char(c))
            && !(w@ == seq!['f'] && next == Some('"')),
        TokenKind::Int(_) => (next matches Some(c) ==> !is_digit(c))
            && !(next == Some('.') && end + 1 < s.len() && is_digit(s[end + 1])),
        TokenKind::Float(_) => next matches Some(c) ==> !is_digit(c),
        TokenKind::Str(_) => !(end - start == 2 && next == Some('"')),
        TokenKind::FStr(_) => true,
        TokenKind::Punct(p) => match p {
            Sym::Lt | Sym::Gt | Sym::Bang => next != Some('='),
            Sym::Assign => next != Some('=') && next != Some('>'),
            Sym::Minus => next != Some('>'),
            Sym::Colon => next != Some(':'),
            Sym::Slash => next != Some('/'),
            _ => true,
        },
    }
}

/// The tokens of `s` up to position `upto`: each starts where the trivia
/// after the previous one ends, is written as its kind says, and is as long
/// as it can be.
pub open spec fn lexed(s: Seq<char>, toks: Seq<Token>, upto: int) -> bool {
    &&& forall|k: int| 0 <= k < toks.len() ==> {
        let t = #[trigger] toks[k];
        &&& t.start == skip_trivia(s, if k == 0 { 0 } else { toks[k - 1].end as int })
        &&& t.start < t.end <= upto <= s.len()
        &&& token_text(s.subrange(t.start as int, t.end as int), t.kind)
        &&& maximal(s, t.kind, t.start as int, t.end as int)
    }
    &&& 0 <= upto <= s.len()
}

/// Where the trivia after the last token (or from the start) begins.
pub open spec fn last_end(toks: Seq<Token>) -> int {
    if toks.len() == 0 { 0 } else { toks.last().end as int }
}

/// The text of the operator `sym` starts at `p` in `s`.
pub open spec fn symbol_at(s: Seq<char>, p: int, sym: Sym) -> bool {
    0 <= p && p + sym_text(sym).len() <= s.len() && s.subrange(p, p + sym_text(sym).len()) == sym_text(sym)
}

/// No closing quote ends a string whose body starts at `from`: no `"`
/// after it closes a valid body.
pub open spec fn unclosed_string(s: Seq<char>, from: int) -> bool {
    forall|e: int| from + 1 <= e <= s.len() && s[e - 1] == '"' ==> !#[trigger] string_body(s.subrange(from, e - 1))
}

/// No `"""` occurs from `from` on.
pub open spec fn unclosed_raw(s: Seq<char>, from: int) -> bool {
    forall|k: int| from <= k ==> !#[trigger] triple_at(s, k)
}

/// `s[p..d]` is the whole run of digits that starts at `p`.
pub open spec fn digit_run(s: Seq<char>, p: int, d: int) -> bool {
    &&& 0 <= p < d <= s.len()
    &&& forall|k: int| p <= k < d ==> is_digit(#[trigger] s[k])
    &&& (d < s.len() ==> !is_digit(s[d]))
}

/// Why no token can be read at `p`, as the error `e` says: a character
/// that starts no token; a string without its closing quote; or an integer
/// (not followed by a fractional part) too large for 64 bits.
pub open spec fn lex_error_at(s: Seq<char>, p: int, e: LexError) -> bool {
    match e {
        LexError::UnexpectedChar(q) => q == p && 0 <= p < s.len() && !is_ident_start(s[p]) && !is_digit(s[p])
            && s[p] != '"' && forall|sym: Sym| !#[trigger] symbol_at(s, p, sym),
        LexError::UnterminatedString(q) => q == p && 0 <= p < s.len() && {
            ||| (s[p] == 'f' && p + 1 < s.len() && s[p + 1] == '"' && unclosed_string(s, p + 2))
            ||| (triple_at(s, p) && unclosed_raw(s, p + 3))
            ||| (s[p] == '"' && !triple_at(s, p) && unclosed_string(s, p + 1))
        },
        LexError::IntegerTooLarge(q) => q == p && exists|d: int| {
            &&& #[trigger] digit_run(s, p, d)
            &&& decimal_value(s.subrange(p, d)) > i64::MAX
            &&& !(d + 1 < s.len() && s[d] == '.' && is_digit(s[d + 1]))
        },
    }
}

/// A complete tokenization of `s`: nothing but trivia follows the last
/// token.
pub open spec fn tokenization(s: Seq<char>, toks: Seq<Token>) -> bool {
    lexed(s, toks, s.len() as int) && skip_trivia(s, last_end(toks)) == s.len()
}

} // verus!

verus! {

fn is_ident_start_char(c: char) -> (r: bool)
    ensures
        r == is_ident_start(c),
{
    ('a' <= c && c <= 'z') || ('A' <= c && c <= 'Z') || c == '_'
}

fn is_ident_char_exec(c: char) -> (r: bool)
    ensures
        r == is_ident_char(c),
{
    is_ident_start_char(c) || ('0' <= c && c <= '9')
}

fn is_digit_char(c: char) -> (r: bool)
    ensures
        r == is_digit(c),
{
    '0' <= c && c <= '9'
}

/// Where the trivia starting at `i` ends.
fn skip_trivia_at(v: &Vec<char>, i: usize) -> (j: usize)
    requires
        i <= v@.len(),
    ensures
        j == skip_trivia(v@, i as int),
        i <= j <= v@.len(),
        j < v@.len() ==> !is_space(v@[j as int])
            && !(v@[j as int] == '/' && j + 1 < v@.len() && v@[j + 1] == '/'),
{
    let n = v.len();
    let mut j = i;
    while j < n
        invariant
            i <= j <= n == v@.len(),
            skip_trivia(v@, i as int) == skip_trivia(v@, j as int),
        decreases n - j,
    {
        if is_space_char(v[j]) {
            j = j + 1;
        } else if n - j > 1 && v[j] == '/' && v[j + 1] == '/' {
            let mut k = j + 2;
            proof { lemma_line_end(v@, j + 2); }
            while k < n && v[k] != '\n'
                invariant
                    j + 2 <= k <= n == v@.len(),
                    line_end(v@, k as int) == line_end(v@, j + 2),
                decreases n - k,
            {
                k = k + 1;
            }
            j = k;
        } else {
            return j;
        }
    }
    j
}

/// The end of the identifier starting at `i`.
fn scan_word(v: &Vec<char>, i: usize) -> (e: usize)
    requires
        i < v@.len(),
        is_ident_start(v@[i as int]),
    ensures
        i < e <= v@.len(),
        forall|k: int| i <= k < e ==> is_ident_char(#[trigger] v@[k]),
        e == v@.len() || !is_ident_char(v@[e as int]),
{
    let n = v.len();
    let mut e = i + 1;
    while e < n && is_ident_char_exec(v[e])
        invariant
            i < e <= v@.len(),
            n == v@.len(),
            forall|k: int| i <= k < e ==> is_ident_char(#[trigger] v@[k]),
        decreases v@.len() - e,
    {
        e = e + 1;
    }
    e
}

/// The end of the run of digits starting at `i`.
fn scan_digits(v: &Vec<char>, i: usize) -> (e: usize)
    requires
        i <= v@.len(),
    ensures
        i <= e <= v@.len(),
        forall|k: int| i <= k < e ==> is_digit(#[trigger] v@[k]),
        e == v@.len() || !is_digit(v@[e as int]),
{
    let mut e = i;
    while e < v.len() && is_digit_char(v[e])
        invariant
            i <= e <= v@.len(),
            forall|k: int| i <= k < e ==> is_digit(#[trigger] v@[k]),
        decreases v@.len() - e,
    {
        e = e + 1;
    }
    e
}

/// The end of the quoted string whose opening quote is at `i` (just past
/// its closing quote), if it is closed.
fn scan_string(v: &Vec<char>, i: usize) -> (r: Option<usize>)
    requires
        i < v@.len(),
    ensures
        r matches Some(e) ==> i + 2 <= e <= v@.len() && v@[e - 1] == '"'
            && string_body(v@.subrange(i + 1, e - 1)),
        r is None ==> unclosed_string(v@, i + 1),
{
    let n = v.len();
    let mut j = i + 1;
    proof {
        assert(v@.subrange(i + 1, i + 1).len() == 0);
    }
    while j < n && v[j] != '"'
        invariant
            i < j <= n == v@.len(),
            string_body(v@.subrange(i + 1, j as int)),
            forall|q: int| i + 1 <= q < j && v@[q] == '"' ==> !#[trigger] string_body(v@.subrange(i + 1, q)),
        decreases n - j,
    {
        let ghost x = v@.subrange(i + 1, j as int);
        if v[j] == '\\' {
            if n - j < 2 {
                proof {
                    assert forall|e: int| i + 2 <= e <= v@.len() && v@[e - 1] == '"'
                        implies !#[trigger] string_body(v@.subrange(i + 1, e - 1)) by {
                        assert(e - 1 < j);
                    }
                }
                return None;
            }
            proof {
                let y = v@.subrange(j as int, j + 2);
                assert(v@.subrange(i + 1, j + 2) =~= x + y);
                lemma_string_body_concat(x, y);
                assert(string_body(y.skip(2))) by {
                    assert(y.skip(2).len() == 0);
                }
                assert(string_body(y));
                if v@[j + 1] == '"' {
                    let z = v@.subrange(j as int, j + 1);
                    assert(v@.subrange(i + 1, j + 1) =~= x + z);
                    lemma_string_body_concat(x, z);
                }
            }
            j = j + 2;
        } else {
            proof {
                let y = v@.subrange(j as int, j + 1);
                assert(v@.subrange(i + 1, j + 1) =~= x + y);
                lemma_string_body_concat(x, y);
                assert(string_body(y.drop_first())) by {
                    assert(y.drop_first().len() == 0);
                }
                assert(string_body(y));
            }
            j = j + 1;
        }
    }
    if j >= n {
        return None;
    }
    Some(j + 1)
}

/// After a complete string body, what follows decides alone whether the
/// whole is one.
proof fn lemma_string_body_concat(x: Seq<char>, y: Seq<char>)
    requires
        string_body(x),
    ensures
        string_body(x + y) == string_body(y),
    decreases x.len(),
{
    if x.len() == 0 {
        assert(x + y =~= y);
    } else if x[0] == '\\' {
        assert((x + y).skip(2) =~= x.skip(2) + y);
        lemma_string_body_concat(x.skip(2), y);
    } else {
        assert((x + y).drop_first() =~= x.drop_first() + y);
        lemma_string_body_concat(x.drop_first(), y);
    }
}

/// The end of the triple-quoted string opened at `i` (just past its closing
/// `"""`), if it is closed.
fn scan_raw_string(v: &Vec<char>, i: usize) -> (r: Option<usize>)
    requires
        triple_at(v@, i as int),
    ensures
        r matches Some(e) ==> i + 6 <= e <= v@.len() && triple_at(v@, e - 3)
            && forall|k: int| i + 3 <= k < e - 3 ==> !#[trigger] triple_at(v@, k),
        r is None ==> unclosed_raw(v@, i + 3),
{
    let n = v.len();
    let mut j = i + 3;
    while j < n && !(n - j > 2 && v[j] == '"' && v[j + 1] == '"' && v[j + 2] == '"')
        invariant
            i + 3 <= j <= n == v@.len(),
            forall|k: int| i + 3 <= k < j ==> !#[trigger] triple_at(v@, k),
        decreases n - j,
    {
        j = j + 1;
    }
    if j >= n {
        return None;
    }
    Some(j + 3)
}

/// The value of a run of digits, if it fits in an `i64`.
fn digits_value(v: &Vec<char>, from: usize, to: usize) -> (r: Option<i64>)
    requires
        from <= to <= v@.len(),
        forall|k: int| from <= k < to ==> is_digit(#[trigger] v@[k]),
    ensures
        r matches Some(x) ==> x == decimal_value(v@.subrange(from as int, to as int)),
        r is None ==> decimal_value(v@.subrange(from as int, to as int)) > i64::MAX,
{
    let mut x: i64 = 0;
    let mut i = from;
    while i < to
        invariant
            from <= i <= to <= v@.len(),
            forall|k: int| from <= k < to ==> is_digit(#[trigger] v@[k]),
            x == decimal_value(v@.subrange(from as int, i as int)),
            x >= 0,
        decreases to - i,
    {
        let d = (v[i] as u32 - '0' as u32) as i64;
        proof {
            assert(v@.subrange(from as int, i + 1).drop_last() =~= v@.subrange(from as int, i as int));
            assert(is_digit(v@[i as int]));
        }
        if x > (9223372036854775807i64 - d) / 10 {
            proof {
                lemma_digits_grow(v@, from as int, i + 1, to as int);
            }
            return None;
        }
        x = x * 10 + d;
        i = i + 1;
    }
    Some(x)
}

/// Digit strings do not lose value when they grow.
proof fn lemma_digits_grow(s: Seq<char>, from: int, mid: int, to: int)
    requires
        0 <= from <= mid <= to <= s.len(),
        forall|k: int| from <= k < to ==> is_digit(#[trigger] s[k]),
    ensures
        decimal_value(s.subrange(from, mid)) <= decimal_value(s.subrange(from, to)),
    decreases to - mid,
{
    if mid < to {
        lemma_digits_grow(s, from, mid, to - 1);
        assert(s.subrange(from, to).drop_last() =~= s.subrange(from, to - 1));
        lemma_digits_nonneg(s, from, to - 1);
        assert(is_digit(s[to - 1]));
    }
}

proof fn lemma_digits_nonneg(s: Seq<char>, from: int, to: int)
    requires
        0 <= from <= to <= s.len(),
        forall|k: int| from <= k < to ==> is_digit(#[trigger] s[k]),
    ensures
        decimal_value(s.subrange(from, to)) >= 0,
    decreases to - from,
{
    if from < to {
        lemma_digits_nonneg(s, from, to - 1);
        assert(s.subrange(from, to).drop_last() =~= s.subrange(from, to - 1));
        assert(is_digit(s[to - 1]));
    }
}

/// Reads the operator at `i`, if there is one: its symbol and its length.
fn scan_punct(v: &Vec<char>, i: usize) -> (r: Option<(Sym, usize)>)
    requires
        i < v@.len(),
    ensures
        r matches Some((p, len)) ==> 1 <= len <= 2 && i + len <= v@.len()
            && v@.subrange(i as int, i + len) == sym_text(p)
            && maximal(v@, TokenKind::Punct(p), i as int, i + len),
        r is None ==> (forall|sym: Sym| !#[trigger] symbol_at(v@, i as int, sym))
            || (v@[i as int] == '/' && i + 1 < v@.len() && v@[i + 1] == '/'),
{
    let n = v.len();
    let c = v[i];
    let next: Option<char> = if n - i > 1 { Some(v[i + 1]) } else { None };
    assert(next == if i + 1 < v@.len() { Some(v@[i + 1]) } else { None::<char> });
    let r = if c == '=' && next == Some('=') { Some((Sym::EqEq, 2usize)) }
        else if c == '=' && next == Some('>') { Some((Sym::FatArrow, 2usize)) }
        else if c == '!' && next == Some('=') { Some((Sym::NotEq, 2usize)) }
        else if c == '<' && next == Some('=') { Some((Sym::Le, 2usize)) }
        else if c == '>' && next == Some('=') { Some((Sym::Ge, 2usize)) }
        else if c == '&' && next == Some('&') { Some((Sym::AndAnd, 2usize)) }
        else if c == '|' && next == Some('|') { Some((Sym::OrOr, 2usize)) }
        else if c == '-' && next == Some('>') { Some((Sym::Arrow, 2usize)) }
        else if c == ':' && next == Some(':') { Some((Sym::ColonColon, 2usize)) }
        else if c == '+' { Some((Sym::Plus, 1usize)) }
        else if c == '-' { Some((Sym::Minus, 1usize)) }
        else if c == '*' { Some((Sym::Star, 1usize)) }
        else if c == '/' && next == Some('/') { None }
        else if c == '/' { Some((Sym::Slash, 1usize)) }
        else if c == '%' { Some((Sym::Percent, 1usize)) }
        else if c == '<' { Some((Sym::Lt, 1usize)) }
        else if c == '>' { Some((Sym::Gt, 1usize)) }
        else if c == '!' { Some((Sym::Bang, 1usize)) }
        else if c == '=' { Some((Sym::Assign, 1usize)) }
        else if c == '.' { Some((Sym::Dot, 1usize)) }
        else if c == ',' { Some((Sym::Comma, 1usize)) }
        else if c == ':' { Some((Sym::Colon, 1usize)) }
        else if c == ';' { Some((Sym::Semi, 1usize)) }
        else if c == '?' { Some((Sym::Question, 1usize)) }
        else if c == '(' { Some((Sym::LParen, 1usize)) }
        else if c == ')' { Some((Sym::RParen, 1usize)) }
        else if c == '[' { Some((Sym::LBracket, 1usize)) }
        else if c == ']' { Some((Sym::RBracket, 1usize)) }
        else if c == '{' { Some((Sym::LBrace, 1usize)) }
        else if c == '}' { Some((Sym::RBrace, 1usize)) }
        else { None };
    proof {
        match r {
            Some((p, len)) => {
                if len == 2 {
                    assert(next is Some);
                    assert(v@.subrange(i as int, i + 2) =~= seq![c, next->0]);
                } else {
                    assert(v@.subrange(i as int, i + 1) =~= seq![c]);
                }
            },
            None => {
                if !(c == '/' && next == Some('/')) {
                    assert forall|sym: Sym| !#[trigger] symbol_at(v@, i as int, sym) by {
                        if symbol_at(v@, i as int, sym) {
                            let t = sym_text(sym);
                            assert(v@.subrange(i as int, i + t.len())[0] == c);
                            if t.len() == 2 {
                                assert(v@.subrange(i as int, i + t.len())[1] == v@[i + 1]);
                            }
                            match sym {
                                Sym::Plus => {}, Sym::Minus => {}, Sym::Star => {}, Sym::Slash => {},
                                Sym::Percent => {}, Sym::EqEq => {}, Sym::NotEq => {}, Sym::Lt => {},
                                Sym::Le => {}, Sym::Gt => {}, Sym::Ge => {}, Sym::AndAnd => {}, Sym::OrOr => {},
                                Sym::Bang => {}, Sym::Assign => {}, Sym::Arrow => {}, Sym::FatArrow => {},
                                Sym::Dot => {}, Sym::Comma => {}, Sym::Colon => {}, Sym::ColonColon => {},
                                Sym::Semi => {}, Sym::Question => {}, Sym::LParen => {}, Sym::RParen => {},
                                Sym::LBracket => {}, Sym::RBracket => {}, Sym::LBrace => {}, Sym::RBrace => {},
                            }
                        }
                    }
                }
            },
        }
    }
    r
}

} // verus!

verus! {

/// `a + b`, or the largest `usize` where that is larger.
pub open spec fn sat_add(a: usize, b: nat) -> usize {
    if a + b > usize::MAX { usize::MAX } else { (a + b) as usize }
}

/// A position moved over the character `c`: the byte offset grows by its
/// width, and a line break starts a new line at column 1.
pub open spec fn moved_over(r: Span, c: char) -> Span {
    Span {
        end: sat_add(r.end, char_width(c)),
        line: if c == '\n' { sat_add(r.line, 1) } else { r.line },
        column: if c == '\n' { 1 } else { sat_add(r.column, 1) },
        ..r
    }
}

/// A position moved over the characters of `s` in turn.
pub open spec fn moved(at: Span, s: Seq<char>) -> Span
    decreases s.len(),
{
    if s.len() == 0 { at } else { moved_over(moved(at, s.drop_last()), s.last()) }
}

/// The start of a source: byte 0, line 1, column 1.
pub open spec fn origin() -> Span {
    Span { start: 0, end: 0, line: 1, column: 1 }
}

/// The span of the token at characters `a..b` of `s`: the byte offsets of
/// its ends, and the line and column where it starts.
pub open spec fn token_span(s: Seq<char>, a: int, b: int) -> Span {
    let at = moved(origin(), s.take(a));
    Span { start: at.end, end: moved(origin(), s.take(b)).end, line: at.line, column: at.column }
}

/// Where a position moved over `v[from..to]` lands.
fn advance(v: &Vec<char>, from: usize, to: usize, at: Span) -> (r: Span)
    requires
        from <= to <= v@.len(),
    ensures
        r == moved(at, v@.subrange(from as int, to as int)),
{
    let mut r = at;
    let mut i = from;
    proof {
        assert(v@.subrange(from as int, from as int) =~= Seq::<char>::empty());
    }
    while i < to
        invariant
            from <= i <= to <= v@.len(),
            r == moved(at, v@.subrange(from as int, i as int)),
        decreases to - i,
    {
        let w = utf8_width(v[i]);
        r.end = r.end.saturating_add(w);
        if v[i] == '\n' {
            r.line = r.line.saturating_add(1);
            r.column = 1;
        } else {
            r.column = r.column.saturating_add(1);
        }
        proof {
            let t = v@.subrange(from as int, i + 1);
            assert(t.drop_last() =~= v@.subrange(from as int, i as int));
            assert(t.last() == v@[i as int]);
        }
        i = i + 1;
    }
    r
}

/// The token that starts at `p` and where it ends.
fn read_token(v: &Vec<char>, p: usize) -> (r: Result<(TokenKind, usize), LexError>)
    requires
        p < v@.len(),
        !(v@[p as int] == '/' && p + 1 < v@.len() && v@[p + 1] == '/'),
    ensures
        r matches Ok((kind, e)) ==> p < e <= v@.len()
            && token_text(v@.subrange(p as int, e as int), kind)
            && maximal(v@, kind, p as int, e as int),
        r matches Err(e) ==> lex_error_at(v@, p as int, e),
{
    let n = v.len();
    let c = v[p];
    let next: Option<char> = if n - p > 1 { Some(v[p + 1]) } else { None };
    if c == 'f' && next == Some('"') {
        match scan_string(v, p + 1) {
            Some(e) => {
                let body = string_from_range(v.as_slice(), p + 2, e - 1);
                proof {
                    let t = v@.subrange(p as int, e as int);
                    assert(t.subrange(2, t.len() - 1) =~= v@.subrange(p + 2, e - 1));
                    assert(t[0] == c && t[1] == '"' && t[t.len() - 1] == '"');
                }
                return Ok((TokenKind::FStr(body), e));
            },
            None => return Err(LexError::UnterminatedString(p)),
        }
    }
    if is_ident_start_char(c) {
        let e = scan_word(v, p);
        let w = string_from_range(v.as_slice(), p, e);
        proof {
            let t = v@.subrange(p as int, e as int);
            assert forall|i: int| 0 <= i < t.len() implies is_ident_char(#[trigger] t[i]) by {
                assert(t[i] == v@[p + i]);
            }
            assert(t[0] == v@[p as int]);
            if w@ == seq!['f'] {
                assert(t.len() == 1);
                assert(e == p + 1);
                assert(v@[p as int] == 'f');
            }
        }
        return Ok((TokenKind::Word(w), e));
    }
    if is_digit_char(c) {
        let d = scan_digits(v, p);
        if n - d > 1 && v[d] == '.' && is_digit_char(v[d + 1]) {
            let e = scan_digits(v, d + 1);
            let f = string_from_range(v.as_slice(), p, e);
            proof {
                let t = v@.subrange(p as int, e as int);
                let k = (d - p) as int;
                assert(t[k] == '.');
                assert forall|i: int| 0 <= i < t.take(k).len() implies is_digit(#[trigger] t.take(k)[i]) by {
                    assert(t.take(k)[i] == v@[p + i]);
                }
                assert forall|i: int| 0 <= i < t.skip(k + 1).len() implies is_digit(#[trigger] t.skip(k + 1)[i]) by {
                    assert(t.skip(k + 1)[i] == v@[d + 1 + i]);
                }
                assert(all_digits(t.take(k)));
                assert(all_digits(t.skip(k + 1)));
            }
            return Ok((TokenKind::Float(f), e));
        }
        match digits_value(v, p, d) {
            Some(x) => {
                proof {
                    let t = v@.subrange(p as int, d as int);
                    assert forall|i: int| 0 <= i < t.len() implies is_digit(#[trigger] t[i]) by {
                        assert(t[i] == v@[p + i]);
                    }
                    assert(all_digits(t));
                }
                return Ok((TokenKind::Int(x), d));
            },
            None => {
                proof {
                    assert(digit_run(v@, p as int, d as int));
                }
                return Err(LexError::IntegerTooLarge(p));
            },
        }
    }
    if c == '"' {
        if n - p > 2 && v[p + 1] == '"' && v[p + 2] == '"' {
            match scan_raw_string(v, p) {
                Some(e) => {
                    let content = crate::syntax::escapes::unescape_chars(v, p + 3, e - 3);
                    let s = string_from_range(content.as_slice(), 0, content.len());
                    proof {
                        let t = v@.subrange(p as int, e as int);
                        assert(t.subrange(3, t.len() - 3) =~= v@.subrange(p + 3, e - 3));
                        assert(content@.subrange(0, content@.len() as int) =~= content@);
                        assert(t[0] == '"' && t[1] == '"' && t[2] == '"');
                        assert(t[t.len() - 3] == v@[e - 3]);
                        assert(t[t.len() - 2] == v@[e - 2]);
                        assert(t[t.len() - 1] == v@[e - 1]);
                        assert forall|j: int| 3 <= j < t.len() - 3 implies !#[trigger] triple_at(t, j) by {
                            assert(t[j] == v@[p + j] && t[j + 1] == v@[p + j + 1] && t[j + 2] == v@[p + j + 2]);
                            assert(!triple_at(v@, p + j));
                        }
                    }
                    return Ok((TokenKind::Str(s), e));
                },
                None => return Err(LexError::UnterminatedString(p)),
            }
        }
        match scan_string(v, p) {
            Some(e) => {
                let content = crate::syntax::escapes::unescape_chars(v, p + 1, e - 1);
                let s = string_from_range(content.as_slice(), 0, content.len());
                proof {
                    let t = v@.subrange(p as int, e as int);
                    assert(t.subrange(1, t.len() - 1) =~= v@.subrange(p + 1, e - 1));
                    assert(content@.subrange(0, content@.len() as int) =~= content@);
                    assert(t[0] == '"');
                    assert(t[t.len() - 1] == v@[e - 1]);
                }
                return Ok((TokenKind::Str(s), e));
            },
            None => return Err(LexError::UnterminatedString(p)),
        }
    }
    match scan_punct(v, p) {
        Some((sym, len)) => Ok((TokenKind::Punct(sym), p + len)),
        None => Err(LexError::UnexpectedChar(p)),
    }
}

/// Appending a token read where the trivia after the last one ends keeps
/// the tokens lexed.
#[verifier::rlimit(40)]
proof fn lemma_lexed_push(s: Seq<char>, before: Seq<Token>, t: Token, pos: int)
    requires
        lexed(s, before, pos),
        pos == last_end(before),
        t.start == skip_trivia(s, pos),
        t.start < t.end <= s.len(),
        token_text(s.subrange(t.start as int, t.end as int), t.kind),
        maximal(s, t.kind, t.start as int, t.end as int),
        pos <= t.start,
    ensures
        lexed(s, before.push(t), t.end as int),
        last_end(before.push(t)) == t.end,
{
    let after = before.push(t);
    assert forall|k: int| 0 <= k < after.len() implies {
        let u = #[trigger] after[k];
        &&& u.start == skip_trivia(s, if k == 0 { 0 } else { after[k - 1].end as int })
        &&& u.start < u.end <= t.end <= s.len()
        &&& token_text(s.subrange(u.start as int, u.end as int), u.kind)
        &&& maximal(s, u.kind, u.start as int, u.end as int)
    } by {
        if k < before.len() {
            assert(after[k] == before[k]);
            if k > 0 {
                assert(after[k - 1] == before[k - 1]);
            }
        } else if k > 0 {
            assert(after[k - 1] == before[k - 1]);
        }
    }
}

/// A position that agrees with the one reached at `a` (byte offset, line
/// and column), moved over `s[a..b]`, agrees with the one reached at `b`.
proof fn lemma_moved_fields(here: Span, o: Span, s: Seq<char>, a: int, b: int)
    requires
        0 <= a <= b <= s.len(),
        here.end == moved(o, s.take(a)).end,
        here.line == moved(o, s.take(a)).line,
        here.column == moved(o, s.take(a)).column,
    ensures
        moved(here, s.subrange(a, b)).end == moved(o, s.take(b)).end,
        moved(here, s.subrange(a, b)).line == moved(o, s.take(b)).line,
        moved(here, s.subrange(a, b)).column == moved(o, s.take(b)).column,
        moved(here, s.subrange(a, b)).start == here.start,
    decreases b - a,
{
    if a < b {
        lemma_moved_fields(here, o, s, a, b - 1);
        assert(s.subrange(a, b).drop_last() =~= s.subrange(a, b - 1));
        assert(s.subrange(a, b).last() == s[b - 1]);
        assert(s.take(b).drop_last() =~= s.take(b - 1));
        assert(s.take(b).last() == s[b - 1]);
    } else {
        assert(s.subrange(a, b) =~= Seq::<char>::empty());
    }
}

/// Splits `src` into tokens.
#[verifier::rlimit(40)]
pub fn tokenize(src: &str) -> (r: Result<Vec<Token>, LexError>)
    ensures
        r matches Ok(toks) ==> tokenization(src@, toks@),
        r matches Ok(toks) ==> forall|k: int| 0 <= k < toks@.len() ==> (#[trigger] toks@[k]).span == token_span(
            src@,
            toks@[k].start as int,
            toks@[k].end as int,
        ),
        r matches Err(e) ==> exists|toks: Seq<Token>| #[trigger] lexed(src@, toks, last_end(toks))
            && lex_error_at(src@, skip_trivia(src@, last_end(toks)), e),
{
    let v = chars_of(src);
    let n = v.len();
    let mut toks: Vec<Token> = Vec::new();
    let mut pos: usize = 0;
    let mut here = Span { start: 0, end: 0, line: 1, column: 1 };
    loop
        invariant
            n == v@.len(),
            v@ == src@,
            pos <= n,
            pos == last_end(toks@),
            lexed(v@, toks@, pos as int),
            here.end == moved(origin(), v@.take(pos as int)).end,
            here.line == moved(origin(), v@.take(pos as int)).line,
            here.column == moved(origin(), v@.take(pos as int)).column,
            forall|k: int| 0 <= k < toks@.len() ==> (#[trigger] toks@[k]).span == token_span(
                v@,
                toks@[k].start as int,
                toks@[k].end as int,
            ),
        decreases n - pos,
    {
        let p = skip_trivia_at(&v, pos);
        let at = advance(&v, pos, p, here);
        proof {
            lemma_moved_fields(here, origin(), v@, pos as int, p as int);
        }
        if p >= n {
            return Ok(toks);
        }
        match read_token(&v, p) {
            Ok((kind, e)) => {
                let start_span = Span { start: at.end, end: at.end, line: at.line, column: at.column };
                let after = advance(&v, p, e, start_span);
                let span = Span { start: at.end, end: after.end, line: at.line, column: at.column };
                proof {
                    lemma_moved_fields(start_span, origin(), v@, p as int, e as int);
                }
                let ghost before = toks@;
                toks.push(Token { kind, start: p, end: e, span });
                proof {
                    lemma_lexed_push(v@, before, toks@.last(), pos as int);
                    assert(toks@ =~= before.push(toks@.last()));
                    assert forall|k: int| 0 <= k < toks@.len() implies (#[trigger] toks@[k]).span == token_span(
                        v@,
                        toks@[k].start as int,
                        toks@[k].end as int,
                    ) by {
                        if k < before.len() {
                            assert(toks@[k] == before[k]);
                        }
                    }
                }
                here = after;
                pos = e;
            },
            Err(err) => {
                proof {
                    assert(lexed(src@, toks@, last_end(toks@)));
                }
                return Err(err);
            },
        }
    }
}

/// An operator's text as its first character and, for two-character
/// operators, its second.
pub open spec fn sym_chars(p: Sym) -> (char, Option<char>) {
    let t = sym_text(p);
    (t[0], if t.len() == 2 { Some(t[1]) } else { None })
}

/// Operators are told apart by their text.
proof fn lemma_sym_chars_injective(p1: Sym, p2: Sym)
    requires
        sym_chars(p1) == sym_chars(p2),
    ensures
        p1 == p2,
{
    match p1 {
        Sym::Plus => {}, Sym::Minus => {}, Sym::Star => {}, Sym::Slash => {}, Sym::Percent => {},
        Sym::EqEq => {}, Sym::NotEq => {}, Sym::Lt => {}, Sym::Le => {}, Sym::Gt => {}, Sym::Ge => {},
        Sym::AndAnd => {}, Sym::OrOr => {}, Sym::Bang => {}, Sym::Assign => {}, Sym::Arrow => {},
        Sym::FatArrow => {}, Sym::Dot => {}, Sym::Comma => {}, Sym::Colon => {}, Sym::ColonColon => {},
        Sym::Semi => {}, Sym::Question => {}, Sym::LParen => {}, Sym::RParen => {}, Sym::LBracket => {},
        Sym::RBracket => {}, Sym::LBrace => {}, Sym::RBrace => {},
    }
}

/// An operator's text is one or two characters, and starts with a mark
/// that starts no word, number or string.
proof fn lemma_sym_shape(p: Sym)
    ensures
        1 <= sym_text(p).len() <= 2,
        !is_ident_char(sym_text(p)[0]),
        sym_text(p)[0] != '"',
{
}

/// A one-character operator that is the first character of a
/// two-character one is never read where that one is written.
proof fn lemma_sym_prefix(p1: Sym, p2: Sym, s: Seq<char>, start: int)
    requires
        sym_text(p1).len() == 1,
        sym_text(p2).len() == 2,
        sym_text(p1)[0] == sym_text(p2)[0],
        start + 2 <= s.len(),
        s[start + 1] == sym_text(p2)[1],
    ensures
        !maximal(s, TokenKind::Punct(p1), start, start + 1),
{
    match p2 {
        Sym::EqEq => {}, Sym::NotEq => {}, Sym::Le => {}, Sym::Ge => {}, Sym::AndAnd => {}, Sym::OrOr => {},
        Sym::Arrow => {}, Sym::FatArrow => {}, Sym::ColonColon => {},
        _ => {},
    }
    match p1 {
        Sym::Plus => {}, Sym::Minus => {}, Sym::Star => {}, Sym::Slash => {}, Sym::Percent => {},
        Sym::Lt => {}, Sym::Gt => {}, Sym::Bang => {}, Sym::Assign => {}, Sym::Dot => {}, Sym::Comma => {},
        Sym::Colon => {}, Sym::Semi => {}, Sym::Question => {}, Sym::LParen => {}, Sym::RParen => {},
        Sym::LBracket => {}, Sym::RBracket => {}, Sym::LBrace => {}, Sym::RBrace => {},
        _ => {},
    }
}

/// The kind and end of a token read at `start`.
pub open spec fn token_at(s: Seq<char>, kind: TokenKind, start: int, end: int) -> bool {
    &&& 0 <= start < end <= s.len()
    &&& token_text(s.subrange(start, end), kind)
    &&& maximal(s, kind, start, end)
}

/// Two operators read at the same place are the same operator.
proof fn lemma_punct_unique(s: Seq<char>, start: int, p1: Sym, e1: int, p2: Sym, e2: int)
    requires
        token_at(s, TokenKind::Punct(p1), start, e1),
        token_at(s, TokenKind::Punct(p2), start, e2),
    ensures
        p1 == p2,
        e1 == e2,
{
    let t1 = s.subrange(start, e1);
    let t2 = s.subrange(start, e2);
    lemma_sym_shape(p1);
    lemma_sym_shape(p2);
    assert(t1 == sym_text(p1));
    assert(t2 == sym_text(p2));
    assert(t1[0] == s[start] && t2[0] == s[start]);
    if t1.len() == t2.len() {
        if t1.len() == 2 {
            assert(t1[1] == s[start + 1] && t2[1] == s[start + 1]);
        }
        assert(sym_chars(p1) == sym_chars(p2));
        lemma_sym_chars_injective(p1, p2);
    } else if t1.len() == 1 {
        assert(t2[1] == s[start + 1]);
        lemma_sym_prefix(p1, p2, s, start);
    } else {
        assert(t1[1] == s[start + 1]);
        lemma_sym_prefix(p2, p1, s, start);
    }
}

/// Two token kinds that read alike: the same kind with the same payload,
/// strings compared by their characters.
pub open spec fn same_kind(k1: TokenKind, k2: TokenKind) -> bool {
    match (k1, k2) {
        (TokenKind::Word(a), TokenKind::Word(b)) => a@ == b@,
        (TokenKind::Int(a), TokenKind::Int(b)) => a == b,
        (TokenKind::Float(a), TokenKind::Float(b)) => a@ == b@,
        (TokenKind::Str(a), TokenKind::Str(b)) => a@ == b@,
        (TokenKind::FStr(a), TokenKind::FStr(b)) => a@ == b@,
        (TokenKind::Punct(a), TokenKind::Punct(b)) => a == b,
        _ => false,
    }
}

/// What the first character of a token says of its kind.
proof fn lemma_token_head(s: Seq<char>, k: TokenKind, start: int, end: int)
    requires
        token_at(s, k, start, end),
    ensures
        k is Word ==> is_ident_start(s[start]),
        k is FStr ==> s[start] == 'f' && start + 1 < s.len() && s[start + 1] == '"',
        (k is Int || k is Float) ==> is_digit(s[start]),
        k is Str ==> s[start] == '"',
        k is Punct ==> !is_ident_char(s[start]) && s[start] != '"',
{
    let t = s.subrange(start, end);
    assert(t[0] == s[start]);
    match k {
        TokenKind::Float(_) => {
            let d = choose|d: int| 0 < d < t.len() - 1 && t[d] == '.' && all_digits(t.take(d))
                && all_digits(t.skip(d + 1));
            assert(t.take(d)[0] == t[0]);
        },
        TokenKind::FStr(_) => {
            assert(t[1] == s[start + 1]);
        },
        TokenKind::Punct(p) => {
            lemma_sym_shape(p);
        },
        _ => {},
    }
}

/// Two runs of characters with a property, from the same place and each
/// ended by a character without it, end at the same place.
proof fn lemma_run_end(s: Seq<char>, start: int, e1: int, e2: int, p: spec_fn(char) -> bool)
    requires
        0 <= start <= e1 <= s.len(),
        start <= e2 <= s.len(),
        forall|i: int| start <= i < e1 ==> p(#[trigger] s[i]),
        forall|i: int| start <= i < e2 ==> p(#[trigger] s[i]),
        e1 < s.len() ==> !p(s[e1]),
        e2 < s.len() ==> !p(s[e2]),
    ensures
        e1 == e2,
{
    if e1 < e2 {
        assert(p(s[e1]));
    } else if e2 < e1 {
        assert(p(s[e2]));
    }
}

/// Two quoted bodies from the same place, each closed by a `"`, close at
/// the same place.
proof fn lemma_quoted_end(s: Seq<char>, from: int, e1: int, e2: int)
    requires
        0 <= from < e1 <= s.len(),
        from < e2 <= s.len(),
        s[e1 - 1] == '"',
        s[e2 - 1] == '"',
        string_body(s.subrange(from, e1 - 1)),
        string_body(s.subrange(from, e2 - 1)),
    ensures
        e1 == e2,
{
    if e1 < e2 {
        let x = s.subrange(from, e1 - 1);
        let y = s.subrange(e1 - 1, e2 - 1);
        assert(s.subrange(from, e2 - 1) =~= x + y);
        lemma_string_body_concat(x, y);
        assert(y[0] == '"');
    } else if e2 < e1 {
        let x = s.subrange(from, e2 - 1);
        let y = s.subrange(e2 - 1, e1 - 1);
        assert(s.subrange(from, e1 - 1) =~= x + y);
        lemma_string_body_concat(x, y);
        assert(y[0] == '"');
    }
}

/// Two words read at the same place are the same word.
proof fn lemma_word_unique(s: Seq<char>, start: int, k1: TokenKind, e1: int, k2: TokenKind, e2: int)
    requires
        token_at(s, k1, start, e1),
        token_at(s, k2, start, e2),
        k1 is Word,
        k2 is Word,
    ensures
        e1 == e2,
        same_kind(k1, k2),
{
    let t1 = s.subrange(start, e1);
    let t2 = s.subrange(start, e2);
    assert forall|i: int| start <= i < e1 implies is_ident_char(#[trigger] s[i]) by {
        assert(t1[i - start] == s[i]);
    }
    assert forall|i: int| start <= i < e2 implies is_ident_char(#[trigger] s[i]) by {
        assert(t2[i - start] == s[i]);
    }
    lemma_run_end(s, start, e1, e2, |c: char| is_ident_char(c));
}

/// A word is never read where an interpolated string starts.
proof fn lemma_word_not_fstring(s: Seq<char>, start: int, k1: TokenKind, e1: int, k2: TokenKind, e2: int)
    requires
        token_at(s, k1, start, e1),
        token_at(s, k2, start, e2),
        k1 is Word,
        k2 is FStr,
    ensures
        e1 == e2,
        same_kind(k1, k2),
{
    let t1 = s.subrange(start, e1);
    let t2 = s.subrange(start, e2);
    assert(t2[0] == s[start] && t2[1] == s[start + 1]);
    if e1 == start + 1 {
        assert(t1 =~= seq!['f']);
    } else {
        assert(t1[1] == s[start + 1]);
    }
}

/// Two interpolated strings read at the same place are the same.
proof fn lemma_fstring_unique(s: Seq<char>, start: int, k1: TokenKind, e1: int, k2: TokenKind, e2: int)
    requires
        token_at(s, k1, start, e1),
        token_at(s, k2, start, e2),
        k1 is FStr,
        k2 is FStr,
    ensures
        e1 == e2,
        same_kind(k1, k2),
{
    let t1 = s.subrange(start, e1);
    let t2 = s.subrange(start, e2);
    assert(t1[t1.len() - 1] == s[e1 - 1]);
    assert(t2[t2.len() - 1] == s[e2 - 1]);
    assert(t1.subrange(2, t1.len() - 1) =~= s.subrange(start + 2, e1 - 1));
    assert(t2.subrange(2, t2.len() - 1) =~= s.subrange(start + 2, e2 - 1));
    lemma_quoted_end(s, start + 2, e1, e2);
}

/// Two integers read at the same place are the same integer.
proof fn lemma_int_unique(s: Seq<char>, start: int, k1: TokenKind, e1: int, k2: TokenKind, e2: int)
    requires
        token_at(s, k1, start, e1),
        token_at(s, k2, start, e2),
        k1 is Int,
        k2 is Int,
    ensures
        e1 == e2,
        same_kind(k1, k2),
{
    let t1 = s.subrange(start, e1);
    let t2 = s.subrange(start, e2);
    assert forall|i: int| start <= i < e1 implies is_digit(#[trigger] s[i]) by {
        assert(t1[i - start] == s[i]);
    }
    assert forall|i: int| start <= i < e2 implies is_digit(#[trigger] s[i]) by {
        assert(t2[i - start] == s[i]);
    }
    lemma_run_end(s, start, e1, e2, |c: char| is_digit(c));
}

/// An integer is never read where a number with a fractional part is
/// written.
proof fn lemma_int_not_float(s: Seq<char>, start: int, k1: TokenKind, e1: int, k2: TokenKind, e2: int)
    requires
        token_at(s, k1, start, e1),
        token_at(s, k2, start, e2),
        k1 is Int,
        k2 is Float,
    ensures
        e1 == e2,
        same_kind(k1, k2),
{
    let t1 = s.subrange(start, e1);
    let t2 = s.subrange(start, e2);
    let d = choose|d: int| 0 < d < t2.len() - 1 && t2[d] == '.' && all_digits(t2.take(d))
        && all_digits(t2.skip(d + 1));
    assert(t2[d] == s[start + d]);
    assert(t2.skip(d + 1)[0] == s[start + d + 1]);
    if e1 - start < d {
        assert(t2.take(d)[e1 - start] == s[e1]);
    } else if e1 - start > d {
        assert(t1[d] == s[start + d]);
    }
}

/// Two numbers with a fractional part read at the same place are the same.
proof fn lemma_float_unique(s: Seq<char>, start: int, k1: TokenKind, e1: int, k2: TokenKind, e2: int)
    requires
        token_at(s, k1, start, e1),
        token_at(s, k2, start, e2),
        k1 is Float,
        k2 is Float,
        e1 <= e2,
    ensures
        e1 == e2,
        same_kind(k1, k2),
{
    let t1 = s.subrange(start, e1);
    let t2 = s.subrange(start, e2);
    let d1 = choose|d: int| 0 < d < t1.len() - 1 && t1[d] == '.' && all_digits(t1.take(d))
        && all_digits(t1.skip(d + 1));
    let d2 = choose|d: int| 0 < d < t2.len() - 1 && t2[d] == '.' && all_digits(t2.take(d))
        && all_digits(t2.skip(d + 1));
    if e1 < e2 {
        assert(t1[d1] == t2[d1]);
        if d1 < d2 {
            assert(t2.take(d2)[d1] == t2[d1]);
        } else if d1 > d2 {
            assert(t2.skip(d2 + 1)[d1 - d2 - 1] == t2[d1]);
        }
        assert(t2.skip(d2 + 1)[e1 - start - d2 - 1] == s[e1]);
    }
    assert(t1 =~= t2);
}

/// Which of its two forms a string literal read at `start` has is decided
/// by whether `"""` is written there.
proof fn lemma_string_form(s: Seq<char>, start: int, c: String, e: int)
    requires
        token_at(s, TokenKind::Str(c), start, e),
    ensures
        triple_at(s, start) ==> {
            let t = s.subrange(start, e);
            &&& t.len() >= 6 && triple_at(t, t.len() - 3)
            &&& forall|j: int| 3 <= j < t.len() - 3 ==> !#[trigger] triple_at(t, j)
            &&& c@ == unescape(t.subrange(3, t.len() - 3))
        },
        !triple_at(s, start) ==> {
            let t = s.subrange(start, e);
            &&& t.len() >= 2 && t[t.len() - 1] == '"'
            &&& string_body(t.subrange(1, t.len() - 1))
            &&& c@ == unescape(t.subrange(1, t.len() - 1))
        },
{
    let t = s.subrange(start, e);
    if t.len() >= 6 && triple_at(t, 0) && triple_at(t, t.len() - 3) {
        assert(t[0] == s[start] && t[1] == s[start + 1] && t[2] == s[start + 2]);
    }
    if triple_at(s, start) && t.len() >= 2 && t[0] == '"' && t[t.len() - 1] == '"'
        && string_body(t.subrange(1, t.len() - 1)) {
        assert(t[1] == s[start + 1]);
        if t.len() > 2 {
            assert(t.subrange(1, t.len() - 1)[0] == '"');
        }
    }
}

/// Two string literals read at the same place are the same.
proof fn lemma_string_unique(s: Seq<char>, start: int, c1: String, e1: int, c2: String, e2: int)
    requires
        token_at(s, TokenKind::Str(c1), start, e1),
        token_at(s, TokenKind::Str(c2), start, e2),
        e1 <= e2,
    ensures
        e1 == e2,
        c1@ == c2@,
{
    lemma_string_form(s, start, c1, e1);
    lemma_string_form(s, start, c2, e2);
    let t1 = s.subrange(start, e1);
    let t2 = s.subrange(start, e2);
    if triple_at(s, start) {
        if e1 < e2 {
            let j = t1.len() - 3;
            assert(t1[j] == t2[j] && t1[j + 1] == t2[j + 1] && t1[j + 2] == t2[j + 2]);
            assert(triple_at(t2, j));
        }
    } else {
        assert(t1[t1.len() - 1] == s[e1 - 1]);
        assert(t2[t2.len() - 1] == s[e2 - 1]);
        assert(t1.subrange(1, t1.len() - 1) =~= s.subrange(start + 1, e1 - 1));
        assert(t2.subrange(1, t2.len() - 1) =~= s.subrange(start + 1, e2 - 1));
        lemma_quoted_end(s, start + 1, e1, e2);
    }
    assert(t1 =~= t2);
}

/// At most one token can be read at a place: two readings have the same
/// end and the same kind.
proof fn lemma_token_unique(s: Seq<char>, start: int, k1: TokenKind, e1: int, k2: TokenKind, e2: int)
    requires
        token_at(s, k1, start, e1),
        token_at(s, k2, start, e2),
    ensures
        e1 == e2,
        same_kind(k1, k2),
{
    lemma_token_head(s, k1, start, e1);
    lemma_token_head(s, k2, start, e2);
    match (k1, k2) {
        (TokenKind::Word(_), TokenKind::Word(_)) => lemma_word_unique(s, start, k1, e1, k2, e2),
        (TokenKind::Word(_), TokenKind::FStr(_)) => lemma_word_not_fstring(s, start, k1, e1, k2, e2),
        (TokenKind::FStr(_), TokenKind::Word(_)) => lemma_word_not_fstring(s, start, k2, e2, k1, e1),
        (TokenKind::FStr(_), TokenKind::FStr(_)) => lemma_fstring_unique(s, start, k1, e1, k2, e2),
        (TokenKind::Int(_), TokenKind::Int(_)) => lemma_int_unique(s, start, k1, e1, k2, e2),
        (TokenKind::Int(_), TokenKind::Float(_)) => lemma_int_not_float(s, start, k1, e1, k2, e2),
        (TokenKind::Float(_), TokenKind::Int(_)) => lemma_int_not_float(s, start, k2, e2, k1, e1),
        (TokenKind::Float(_), TokenKind::Float(_)) => {
            if e1 <= e2 {
                lemma_float_unique(s, start, k1, e1, k2, e2);
            } else {
                lemma_float_unique(s, start, k2, e2, k1, e1);
            }
        },
        (TokenKind::Str(c1), TokenKind::Str(c2)) => {
            if e1 <= e2 {
                lemma_string_unique(s, start, c1, e1, c2, e2);
            } else {
                lemma_string_unique(s, start, c2, e2, c1, e1);
            }
        },
        (TokenKind::Punct(p1), TokenKind::Punct(p2)) => lemma_punct_unique(s, start, p1, e1, p2, e2),
        _ => {},
    }
}

/// The `k`-th token of `toks` is read where the trivia after the one
/// before it ends.
#[verifier::opaque]
spec fn read_at(s: Seq<char>, toks: Seq<Token>, k: int) -> bool {
    &&& token_at(s, toks[k].kind, toks[k].start as int, toks[k].end as int)
    &&& toks[k].start == skip_trivia(s, if k == 0 { 0 } else { toks[k - 1].end as int })
}

/// Each token of a reading is read where the one before it leaves off.
proof fn lemma_lexed_reads(s: Seq<char>, toks: Seq<Token>)
    requires
        lexed(s, toks, s.len() as int),
    ensures
        forall|k: int| 0 <= k < toks.len() ==> #[trigger] read_at(s, toks, k),
{
    reveal(read_at);
}

/// Two readings that agree up to token `k` agree on token `k`.
proof fn lemma_reading_step(s: Seq<char>, a: Seq<Token>, b: Seq<Token>, k: int)
    requires
        0 <= k < a.len(),
        k < b.len(),
        read_at(s, a, k),
        read_at(s, b, k),
        k > 0 ==> a[k - 1].end == b[k - 1].end,
    ensures
        a[k].start == b[k].start,
        a[k].end == b[k].end,
        same_kind(a[k].kind, b[k].kind),
{
    reveal(read_at);
    lemma_token_unique(s, a[k].start as int, a[k].kind, a[k].end as int, b[k].kind, b[k].end as int);
}

/// Two readings of the same text agree on their first `n` tokens.
proof fn lemma_readings_agree(s: Seq<char>, a: Seq<Token>, b: Seq<Token>, n: int)
    requires
        forall|k: int| 0 <= k < a.len() ==> #[trigger] read_at(s, a, k),
        forall|k: int| 0 <= k < b.len() ==> #[trigger] read_at(s, b, k),
        0 <= n <= a.len(),
        n <= b.len(),
    ensures
        forall|k: int| 0 <= k < n ==> {
            &&& (#[trigger] a[k]).start == b[k].start
            &&& a[k].end == b[k].end
            &&& same_kind(a[k].kind, b[k].kind)
        },
    decreases n,
{
    if n > 0 {
        lemma_readings_agree(s, a, b, n - 1);
        let k = n - 1;
        assert(read_at(s, a, k) && read_at(s, b, k));
        if k > 0 {
            let pa = a[k - 1];
            assert(pa.end == b[k - 1].end);
        }
        lemma_reading_step(s, a, b, k);
    }
}

/// A reading that covers the whole text has no room for one more token.
proof fn lemma_no_more_tokens(s: Seq<char>, a: Seq<Token>, b: Seq<Token>)
    requires
        tokenization(s, a),
        lexed(s, b, s.len() as int),
        a.len() <= b.len(),
        forall|k: int| 0 <= k < a.len() ==> (#[trigger] a[k]).end == b[k].end,
    ensures
        b.len() == a.len(),
{
    let n = a.len() as int;
    if n == b.len() {
        return;
    }
    let t = b[n];
    if n > 0 {
        let p = a[n - 1];
        assert(p.end == b[n - 1].end);
    }
    assert(t.start == skip_trivia(s, last_end(a)));
}

/// The tokens of a text are determined by it: two complete readings have
/// as many tokens, at the same places and of the same kinds.
pub proof fn law_tokenization_unique(s: Seq<char>, a: Seq<Token>, b: Seq<Token>)
    requires
        tokenization(s, a),
        tokenization(s, b),
    ensures
        a.len() == b.len(),
        forall|k: int| 0 <= k < a.len() ==> {
            &&& (#[trigger] a[k]).start == b[k].start
            &&& a[k].end == b[k].end
            &&& same_kind(a[k].kind, b[k].kind)
        },
{
    lemma_lexed_reads(s, a);
    lemma_lexed_reads(s, b);
    if a.len() < b.len() {
        lemma_readings_agree(s, a, b, a.len() as int);
        lemma_no_more_tokens(s, a, b);
    } else if b.len() < a.len() {
        lemma_readings_agree(s, b, a, b.len() as int);
        lemma_no_more_tokens(s, b, a);
    } else {
        lemma_readings_agree(s, a, b, a.len() as int);
    }
}

/// Where a token can be read, no error is found.
proof fn lemma_no_error_at_token(s: Seq<char>, p: int, k: TokenKind, e: int, err: LexError)
    requires
        token_at(s, k, p, e),
    ensures
        !lex_error_at(s, p, err),
{
    lemma_token_head(s, k, p, e);
    let t = s.subrange(p, e);
    if lex_error_at(s, p, err) {
        match err {
            LexError::UnexpectedChar(_) => {
                if let TokenKind::Punct(sym) = k {
                    assert(symbol_at(s, p, sym));
                }
            },
            LexError::UnterminatedString(_) => {
                if s[p] == 'f' && p + 1 < s.len() && s[p + 1] == '"' && unclosed_string(s, p + 2) {
                    if k is FStr {
                        assert(t[t.len() - 1] == s[e - 1]);
                        assert(t.subrange(2, t.len() - 1) =~= s.subrange(p + 2, e - 1));
                        assert(!string_body(s.subrange(p + 2, e - 1)));
                    } else if e == p + 1 {
                        assert(t =~= seq!['f']);
                    } else {
                        assert(t[1] == s[p + 1]);
                    }
                } else if let TokenKind::Str(c) = k {
                    lemma_string_form(s, p, c, e);
                    if triple_at(s, p) {
                        let j = t.len() - 3;
                        assert(t[j] == s[p + j] && t[j + 1] == s[p + j + 1] && t[j + 2] == s[p + j + 2]);
                        assert(triple_at(s, p + j));
                    } else {
                        assert(t[t.len() - 1] == s[e - 1]);
                        assert(t.subrange(1, t.len() - 1) =~= s.subrange(p + 1, e - 1));
                        assert(!string_body(s.subrange(p + 1, e - 1)));
                    }
                }
            },
            LexError::IntegerTooLarge(_) => {
                let d = choose|d: int| {
                    &&& #[trigger] digit_run(s, p, d)
                    &&& decimal_value(s.subrange(p, d)) > i64::MAX
                    &&& !(d + 1 < s.len() && s[d] == '.' && is_digit(s[d + 1]))
                };
                if k is Int {
                    assert forall|i: int| p <= i < e implies is_digit(#[trigger] s[i]) by {
                        assert(t[i - p] == s[i]);
                    }
                    lemma_run_end(s, p, e, d, |c: char| is_digit(c));
                    assert(t =~= s.subrange(p, d));
                } else if k is Float {
                    let f = choose|f: int| 0 < f < t.len() - 1 && t[f] == '.' && all_digits(t.take(f))
                        && all_digits(t.skip(f + 1));
                    assert forall|i: int| p <= i < p + f implies is_digit(#[trigger] s[i]) by {
                        assert(t.take(f)[i - p] == s[i]);
                    }
                    assert(t[f] == s[p + f]);
                    lemma_run_end(s, p, p + f, d, |c: char| is_digit(c));
                    assert(t.skip(f + 1)[0] == s[p + f + 1]);
                }
            },
        }
    }
}

/// After a partial reading of a text that has a complete one, either the
/// text ends or a token can be read: no error is found.
proof fn lemma_partial_reading(s: Seq<char>, a: Seq<Token>, toks: Seq<Token>, err: LexError)
    requires
        forall|k: int| 0 <= k < a.len() ==> #[trigger] read_at(s, a, k),
        forall|k: int| 0 <= k < toks.len() ==> #[trigger] read_at(s, toks, k),
        skip_trivia(s, last_end(a)) == s.len(),
    ensures
        !lex_error_at(s, skip_trivia(s, last_end(toks)), err),
{
    if toks.len() > a.len() {
        let n = a.len() as int;
        lemma_readings_agree(s, a, toks, n);
        if n > 0 {
            let q = a[n - 1];
            assert(q.end == toks[n - 1].end);
        }
        assert(read_at(s, toks, n));
        reveal(read_at);
        assert(toks[n].start == s.len());
    } else {
        let n = toks.len() as int;
        lemma_readings_agree(s, toks, a, n);
        if n > 0 {
            let q = toks[n - 1];
            assert(q.end == a[n - 1].end);
        }
        if n < a.len() {
            assert(read_at(s, a, n));
            reveal(read_at);
            lemma_no_error_at_token(s, a[n].start as int, a[n].kind, a[n].end as int, err);
        }
    }
}

/// A text is either read whole or refused, never both: where it has a
/// complete reading, no error is found after any partial one.
pub proof fn law_read_or_refused(s: Seq<char>, a: Seq<Token>, toks: Seq<Token>, err: LexError)
    requires
        tokenization(s, a),
        lexed(s, toks, last_end(toks)),
    ensures
        !lex_error_at(s, skip_trivia(s, last_end(toks)), err),
{
    assert(lexed(s, toks, s.len() as int));
    lemma_lexed_reads(s, a);
    lemma_lexed_reads(s, toks);
    lemma_partial_reading(s, a, toks, err);
}

} // verus!

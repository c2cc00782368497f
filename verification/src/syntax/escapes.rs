//! Decoding of string literal contents and of the text parts of
//! interpolated strings.

use vstd::prelude::*;
use crate::text::{chars_of, string_from_chars};

verus! {

/// The character that `\c` stands for in a string literal.
pub open spec fn string_escape(c: char) -> Option<char> {
    if c == 'n' { Some('\n') }
    else if c == 'r' { Some('\r') }
    else if c == 't' { Some('\t') }
    else if c == '\\' { Some('\\') }
    else if c == '"' { Some('"') }
    else if c == '$' { Some('$') }
    else { None }
}

/// The character that `\c` stands for in the text of an interpolated string.
pub open spec fn fstring_escape(c: char) -> Option<char> {
    if c == 'n' { Some('\n') }
    else if c == 'r' { Some('\r') }
    else if c == 't' { Some('\t') }
    else if c == '\\' { Some('\\') }
    else if c == '"' { Some('"') }
    else if c == '{' { Some('{') }
    else if c == '}' { Some('}') }
    else { None }
}

/// The decoded body of a string literal: a backslash followed by a known
/// escape letter stands for that character; any other backslash stays.
pub open spec fn unescape(s: Seq<char>) -> Seq<char>
    decreases s.len(),
{
    if s.len() == 0 {
        Seq::empty()
    } else if s[0] == '\\' && s.len() > 1 && string_escape(s[1]) is Some {
        seq![string_escape(s[1])->0] + unescape(s.skip(2))
    } else {
        seq![s[0]] + unescape(s.drop_first())
    }
}

/// The decoded text of an interpolated string: escapes as in `unescape`
/// (with `\{` and `\}` instead of `\$`), `{{` and `}}` stand for one brace,
/// and a single brace is dropped.
pub open spec fn unescape_fstring(s: Seq<char>) -> Seq<char>
    decreases s.len(),
{
    if s.len() == 0 {
        Seq::empty()
    } else if s[0] == '\\' {
        if s.len() > 1 && fstring_escape(s[1]) is Some {
            seq![fstring_escape(s[1])->0] + unescape_fstring(s.skip(2))
        } else {
            seq!['\\'] + unescape_fstring(s.drop_first())
        }
    } else if s[0] == '{' {
        if s.len() > 1 && s[1] == '{' {
            seq!['{'] + unescape_fstring(s.skip(2))
        } else {
            unescape_fstring(s.drop_first())
        }
    } else if s[0] == '}' {
        if s.len() > 1 && s[1] == '}' {
            seq!['}'] + unescape_fstring(s.skip(2))
        } else {
            unescape_fstring(s.drop_first())
        }
    } else {
        seq![s[0]] + unescape_fstring(s.drop_first())
    }
}

/// `s` starts with `"""` and ends with `"""`.
pub open spec fn triple_quoted(s: Seq<char>) -> bool {
    s.len() >= 3 && s[0] == '"' && s[1] == '"' && s[2] == '"'
        && s[s.len() - 1] == '"' && s[s.len() - 2] == '"' && s[s.len() - 3] == '"'
}

/// `s` starts and ends with `"`.
pub open spec fn quoted(s: Seq<char>) -> bool {
    s.len() >= 1 && s[0] == '"' && s[s.len() - 1] == '"'
}

/// The body of a literal without its quotes: three on each side for a
/// triple-quoted literal, one on each side for a quoted one, none otherwise.
pub open spec fn strip_quotes(s: Seq<char>) -> Seq<char> {
    if triple_quoted(s) {
        s.subrange(3, s.len() - 3)
    } else if quoted(s) {
        s.subrange(1, s.len() - 1)
    } else {
        s
    }
}

/// Removing the quotes is possible: a literal that starts and ends with
/// quotes has room for both.
pub open spec fn quotes_removable(s: Seq<char>) -> bool {
    &&& triple_quoted(s) ==> s.len() >= 6
    &&& (!triple_quoted(s) && quoted(s)) ==> s.len() >= 2
}

/// The characters of `v[from..to]` with their escapes decoded.
pub fn unescape_chars(v: &Vec<char>, from: usize, to: usize) -> (r: Vec<char>)
    requires
        from <= to <= v@.len(),
    ensures
        r@ == unescape(v@.subrange(from as int, to as int)),
{
    let mut r: Vec<char> = Vec::new();
    let mut i = from;
    while i < to
        invariant
            from <= i <= to <= v@.len(),
            unescape(v@.subrange(from as int, to as int)) == r@ + unescape(v@.subrange(i as int, to as int)),
        decreases to - i,
    {
        let ghost rest = v@.subrange(i as int, to as int);
        let c = v[i];
        if c == '\\' && to - i > 1 {
            let n = v[i + 1];
            let m = if n == 'n' { Some('\n') } else if n == 'r' { Some('\r') } else if n == 't' { Some('\t') }
                else if n == '\\' { Some('\\') } else if n == '"' { Some('"') } else if n == '$' { Some('$') }
                else { None };
            match m {
                Some(e) => {
                    proof {
                        assert(rest[1] == n);
                        assert(rest.skip(2) =~= v@.subrange(i + 2, to as int));
                        assert(r@.push(e) + unescape(rest.skip(2)) =~= r@ + (seq![e] + unescape(rest.skip(2))));
                    }
                    r.push(e);
                    i = i + 2;
                    continue;
                },
                None => {},
            }
        }
        proof {
            assert(rest[0] == c);
            assert(rest.drop_first() =~= v@.subrange(i + 1, to as int));
            assert(r@.push(c) + unescape(rest.drop_first()) =~= r@ + (seq![c] + unescape(rest.drop_first())));
        }
        r.push(c);
        i = i + 1;
    }
    proof { assert(unescape(v@.subrange(to as int, to as int)) =~= Seq::<char>::empty()); }
    r
}

/// The content of a string literal: the quotes removed (`"""` or `"`) and
/// the escapes decoded.
pub fn parse_string_content(s: &str) -> (r: String)
    requires
        quotes_removable(s@),
    ensures
        r@ == unescape(strip_quotes(s@)),
{
    let v = chars_of(s);
    let n = v.len();
    let triple = n >= 3 && v[0] == '"' && v[1] == '"' && v[2] == '"' && v[n - 1] == '"' && v[n - 2] == '"'
        && v[n - 3] == '"';
    let (from, to) = if triple {
        (3, n - 3)
    } else if n >= 1 && v[0] == '"' && v[n - 1] == '"' {
        (1, n - 1)
    } else {
        (0, n)
    };
    proof { assert(v@.subrange(0, n as int) =~= v@); }
    let r = unescape_chars(&v, from, to);
    string_from_chars(r.as_slice())
}

/// The text part of an interpolated string, decoded.
pub fn parse_fstring_text(s: &str) -> (r: String)
    ensures
        r@ == unescape_fstring(s@),
{
    let v = chars_of(s);
    let to = v.len();
    let mut r: Vec<char> = Vec::new();
    let mut i: usize = 0;
    proof { assert(v@.subrange(0, to as int) =~= v@); }
    while i < to
        invariant
            i <= to == v@.len(),
            v@ == s@,
            unescape_fstring(s@) == r@ + unescape_fstring(v@.subrange(i as int, to as int)),
        decreases to - i,
    {
        let ghost rest = v@.subrange(i as int, to as int);
        let c = v[i];
        proof {
            assert(rest[0] == c);
            assert(rest.drop_first() =~= v@.subrange(i + 1, to as int));
            if to - i > 1 {
                assert(rest[1] == v@[i + 1]);
                assert(rest.skip(2) =~= v@.subrange(i + 2, to as int));
            }
        }
        if c == '\\' {
            if to - i > 1 {
                let n = v[i + 1];
                let m = if n == 'n' { Some('\n') } else if n == 'r' { Some('\r') } else if n == 't' { Some('\t') }
                    else if n == '\\' { Some('\\') } else if n == '"' { Some('"') } else if n == '{' { Some('{') }
                    else if n == '}' { Some('}') } else { None };
                match m {
                    Some(e) => {
                        proof { assert(r@.push(e) + unescape_fstring(rest.skip(2)) =~= r@ + (seq![e] + unescape_fstring(rest.skip(2)))); }
                        r.push(e);
                        i = i + 2;
                        continue;
                    },
                    None => {},
                }
            }
            proof { assert(r@.push(c) + unescape_fstring(rest.drop_first()) =~= r@ + (seq![c] + unescape_fstring(rest.drop_first()))); }
            r.push(c);
            i = i + 1;
        } else if c == '{' || c == '}' {
            if to - i > 1 && v[i + 1] == c {
                proof { assert(r@.push(c) + unescape_fstring(rest.skip(2)) =~= r@ + (seq![c] + unescape_fstring(rest.skip(2)))); }
                r.push(c);
                i = i + 2;
            } else {
                i = i + 1;
            }
        } else {
            proof { assert(r@.push(c) + unescape_fstring(rest.drop_first()) =~= r@ + (seq![c] + unescape_fstring(rest.drop_first()))); }
            r.push(c);
            i = i + 1;
        }
    }
    proof { assert(unescape_fstring(v@.subrange(to as int, to as int)) =~= Seq::<char>::empty()); }
    string_from_chars(r.as_slice())
}

/// In a string literal each escape stands for one character, and any other
/// character stands for itself: `\\` for a backslash, `\n`, `\r`, `\t`
/// for a newline, a carriage return and a tab, `\"` for a quote and `\$`
/// for a dollar sign; the text after it is decoded on its own.
pub proof fn law_string_escapes(s: Seq<char>, c: char)
    ensures
        unescape(seq!['\\', '\\'] + s) == seq!['\\'] + unescape(s),
        unescape(seq!['\\', 'n'] + s) == seq!['\n'] + unescape(s),
        unescape(seq!['\\', 'r'] + s) == seq!['\r'] + unescape(s),
        unescape(seq!['\\', 't'] + s) == seq!['\t'] + unescape(s),
        unescape(seq!['\\', '"'] + s) == seq!['"'] + unescape(s),
        unescape(seq!['\\', '$'] + s) == seq!['$'] + unescape(s),
        c != '\\' ==> unescape(seq![c] + s) == seq![c] + unescape(s),
{
    assert((seq!['\\', '\\'] + s).skip(2) =~= s);
    assert((seq!['\\', 'n'] + s).skip(2) =~= s);
    assert((seq!['\\', 'r'] + s).skip(2) =~= s);
    assert((seq!['\\', 't'] + s).skip(2) =~= s);
    assert((seq!['\\', '"'] + s).skip(2) =~= s);
    assert((seq!['\\', '$'] + s).skip(2) =~= s);
    assert((seq![c] + s).drop_first() =~= s);
}

/// In the text of an interpolated string `\\` stands for one backslash,
/// `{{` and `}}` for one brace each, and a single brace is dropped.
pub proof fn law_fstring_escapes(s: Seq<char>)
    ensures
        unescape_fstring(seq!['\\', '\\'] + s) == seq!['\\'] + unescape_fstring(s),
        unescape_fstring(seq!['{', '{'] + s) == seq!['{'] + unescape_fstring(s),
        unescape_fstring(seq!['}', '}'] + s) == seq!['}'] + unescape_fstring(s),
        s.len() == 0 || s[0] != '{' ==> unescape_fstring(seq!['{'] + s) == unescape_fstring(s),
{
    assert((seq!['\\', '\\'] + s).skip(2) =~= s);
    assert((seq!['{', '{'] + s).skip(2) =~= s);
    assert((seq!['}', '}'] + s).skip(2) =~= s);
    assert((seq!['{'] + s).drop_first() =~= s);
}

} // verus!

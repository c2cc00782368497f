//! Whether a piece of input is finished: open brackets and strings.
//!
//! Two front ends decide differently when a line of input needs another
//! line; both rules are here.

use vstd::prelude::*;
use crate::text::{chars_of, trim, trim_end, trim_bounds};

verus! {

/// The state of the delimiter scan: counts of open braces, brackets and
/// parentheses, whether the scan is inside a `"..."` string, a `"""..."""`
/// string or a `'...'` string, and whether the next character is escaped.
pub struct ScanState {
    pub braces: i64,
    pub brackets: i64,
    pub parens: i64,
    pub in_string: bool,
    pub in_triple: bool,
    pub in_single: bool,
    pub escape_next: bool,
}

/// The state before any character is read.
pub open spec fn scan_start() -> ScanState {
    ScanState {
        braces: 0,
        brackets: 0,
        parens: 0,
        in_string: false,
        in_triple: false,
        in_single: false,
        escape_next: false,
    }
}

/// `s[i..i+3]` is `"""`.
pub open spec fn triple_quote_at(s: Seq<char>, i: int) -> bool {
    i + 2 < s.len() && s[i] == '"' && s[i + 1] == '"' && s[i + 2] == '"'
}

/// One step of the scan at position `i`: the new state and how many
/// characters were read.
pub open spec fn scan_step(s: Seq<char>, i: int, st: ScanState) -> (ScanState, int) {
    let ch = s[i];
    if st.escape_next {
        (ScanState { escape_next: false, ..st }, 1)
    } else if ch == '\\' && (st.in_string || st.in_single) {
        (ScanState { escape_next: true, ..st }, 1)
    } else if triple_quote_at(s, i) && !st.in_string && !st.in_single {
        (ScanState { in_triple: !st.in_triple, ..st }, 3)
    } else if ch == '"' && !st.in_single && !st.in_triple {
        (ScanState { in_string: !st.in_string, ..st }, 1)
    } else if ch == '\'' && !st.in_string && !st.in_triple {
        (ScanState { in_single: !st.in_single, ..st }, 1)
    } else if !st.in_string && !st.in_triple && !st.in_single {
        if ch == '{' {
            (ScanState { braces: (st.braces + 1) as i64, ..st }, 1)
        } else if ch == '}' {
            (ScanState { braces: (st.braces - 1) as i64, ..st }, 1)
        } else if ch == '[' {
            (ScanState { brackets: (st.brackets + 1) as i64, ..st }, 1)
        } else if ch == ']' {
            (ScanState { brackets: (st.brackets - 1) as i64, ..st }, 1)
        } else if ch == '(' {
            (ScanState { parens: (st.parens + 1) as i64, ..st }, 1)
        } else if ch == ')' {
            (ScanState { parens: (st.parens - 1) as i64, ..st }, 1)
        } else {
            (st, 1)
        }
    } else {
        (st, 1)
    }
}

/// The state after scanning `s` from position `i` to the end.
pub open spec fn scan_from(s: Seq<char>, i: int, st: ScanState) -> ScanState
    decreases s.len() - i,
{
    if i < 0 || i >= s.len() {
        st
    } else {
        let (next, n) = scan_step(s, i, st);
        scan_from(s, i + n, next)
    }
}

/// The input has an open brace, bracket, parenthesis or string.
pub open spec fn unclosed(s: Seq<char>) -> bool {
    let st = scan_from(s, 0, scan_start());
    st.braces > 0 || st.brackets > 0 || st.parens > 0 || st.in_triple || st.in_string || st.in_single
}

/// `s` holds no `"`.
pub open spec fn no_double_quote(s: Seq<char>) -> bool {
    forall|k: int| 0 <= k < s.len() ==> s[k] != '"'
}

/// `"""` followed by `body` and `"""`.
pub open spec fn triple_string(body: Seq<char>) -> Seq<char> {
    seq!['"', '"', '"'] + body + seq!['"', '"', '"']
}

/// Inside a triple-quoted string every character but a `"` is passed over.
proof fn lemma_scan_triple_body(u: Seq<char>, k: int, end: int, st: ScanState)
    requires
        0 <= k <= end <= u.len(),
        forall|m: int| k <= m < end ==> u[m] != '"',
        st.in_triple,
        !st.escape_next,
        !st.in_string,
        !st.in_single,
    ensures
        scan_from(u, k, st) == scan_from(u, end, st),
    decreases end - k,
{
    if k < end {
        assert(!triple_quote_at(u, k));
        assert(scan_step(u, k, st) == (st, 1int));
        lemma_scan_triple_body(u, k + 1, end, st);
    }
}

/// A complete triple-quoted string leaves the scan as it was: read outside
/// any string, `"""body"""` with no `"` in `body` changes neither the
/// counts nor the string state, whatever comes after it.
pub proof fn law_triple_string_closes(s: Seq<char>, body: Seq<char>, rest: Seq<char>, st: ScanState)
    requires
        no_double_quote(body),
        !st.in_string,
        !st.in_single,
        !st.in_triple,
        !st.escape_next,
    ensures
        ({
            let u = s + triple_string(body) + rest;
            scan_from(u, s.len() as int, st) == scan_from(u, (s.len() + 6 + body.len()) as int, st)
        }),
{
    let u = s + triple_string(body) + rest;
    let i = s.len() as int;
    let j = i + 3 + body.len();
    assert(u[i] == '"' && u[i + 1] == '"' && u[i + 2] == '"');
    assert(triple_quote_at(u, i));
    let st_t = ScanState { in_triple: true, ..st };
    assert(scan_step(u, i, st) == (st_t, 3int));
    assert forall|m: int| i + 3 <= m < j implies u[m] != '"' by {
        assert(u[m] == body[m - i - 3]);
    }
    lemma_scan_triple_body(u, i + 3, j, st_t);
    assert(u[j] == '"' && u[j + 1] == '"' && u[j + 2] == '"');
    assert(triple_quote_at(u, j));
    assert(scan_step(u, j, st_t) == (st, 3int));
}

/// Scanning a text with no `"` and then more: the scan reaches the end of
/// that text in the state that the text alone ends in, with no string open
/// but a `'...'` one, and an escape only inside that.
proof fn lemma_scan_prefix(p: Seq<char>, u: Seq<char>, i: int, st: ScanState)
    requires
        no_double_quote(p),
        p.is_prefix_of(u),
        0 <= i <= p.len(),
        !st.in_string,
        !st.in_triple,
        st.escape_next ==> st.in_single,
    ensures
        scan_from(u, i, st) == scan_from(u, p.len() as int, scan_from(p, i, st)),
        !scan_from(p, i, st).in_string,
        !scan_from(p, i, st).in_triple,
        scan_from(p, i, st).escape_next ==> scan_from(p, i, st).in_single,
    decreases p.len() - i,
{
    if i < p.len() {
        assert(u[i] == p[i]);
        assert(!triple_quote_at(u, i));
        assert(!triple_quote_at(p, i));
        assert(scan_step(u, i, st) == scan_step(p, i, st));
        let (next, n) = scan_step(p, i, st);
        assert(n == 1);
        lemma_scan_prefix(p, u, i + 1, next);
    }
}

/// Input with no open delimiter and no `"`, followed by a complete
/// triple-quoted string, is still not unclosed.
pub proof fn law_closed_triple_string_is_complete(p: Seq<char>, body: Seq<char>)
    requires
        no_double_quote(p),
        no_double_quote(body),
        !unclosed(p),
    ensures
        !unclosed(p + triple_string(body)),
{
    let u = p + triple_string(body);
    assert(p.is_prefix_of(u)) by {
        assert(u.subrange(0, p.len() as int) =~= p);
    }
    lemma_scan_prefix(p, u, 0, scan_start());
    let st = scan_from(p, 0, scan_start());
    law_triple_string_closes(p, body, Seq::empty(), st);
    assert(p + triple_string(body) + Seq::<char>::empty() =~= u);
    assert(scan_from(u, u.len() as int, st) == st);
}

/// The counts move by at most one per character read.
pub open spec fn counts_bounded(st: ScanState, i: int) -> bool {
    -i <= st.braces <= i && -i <= st.brackets <= i && -i <= st.parens <= i
}

/// Tells whether `input` has an unclosed brace, bracket, parenthesis or
/// string; a backslash inside a string escapes the next character.
pub fn has_unclosed_delimiters(input: &str) -> (r: bool)
    requires
        input@.len() <= i64::MAX,
    ensures
        r == unclosed(input@),
{
    let chars = chars_of(input);
    let n = chars.len();
    let mut st = ScanState {
        braces: 0,
        brackets: 0,
        parens: 0,
        in_string: false,
        in_triple: false,
        in_single: false,
        escape_next: false,
    };
    let mut i: usize = 0;
    while i < n
        invariant
            n == chars@.len() == input@.len(),
            n <= i64::MAX,
            chars@ == input@,
            i <= n,
            counts_bounded(st, i as int),
            scan_from(chars@, 0, scan_start()) == scan_from(chars@, i as int, st),
        decreases n - i,
    {
        let ghost before = st;
        let ch = chars[i];
        if st.escape_next {
            st.escape_next = false;
            i = i + 1;
            continue;
        }
        if ch == '\\' && (st.in_string || st.in_single) {
            st.escape_next = true;
            i = i + 1;
            continue;
        }
        if n - i > 2 && chars[i] == '"' && chars[i + 1] == '"' && chars[i + 2] == '"'
            && !st.in_string && !st.in_single {
            st.in_triple = !st.in_triple;
            i = i + 3;
            continue;
        }
        if ch == '"' && !st.in_single && !st.in_triple {
            st.in_string = !st.in_string;
            i = i + 1;
            continue;
        }
        if ch == '\'' && !st.in_string && !st.in_triple {
            st.in_single = !st.in_single;
            i = i + 1;
            continue;
        }
        if !st.in_string && !st.in_triple && !st.in_single {
            if ch == '{' {
                st.braces = st.braces + 1;
            } else if ch == '}' {
                st.braces = st.braces - 1;
            } else if ch == '[' {
                st.brackets = st.brackets + 1;
            } else if ch == ']' {
                st.brackets = st.brackets - 1;
            } else if ch == '(' {
                st.parens = st.parens + 1;
            } else if ch == ')' {
                st.parens = st.parens - 1;
            }
        }
        i = i + 1;
    }
    st.braces > 0 || st.brackets > 0 || st.parens > 0 || st.in_triple || st.in_string || st.in_single
}

/// `s` starts with `p`.
pub open spec fn starts_with(s: Seq<char>, p: Seq<char>) -> bool {
    p.len() <= s.len() && s.take(p.len() as int) == p
}

/// Tests whether `s` starts with `p`.
pub fn starts_with_chars(s: &[char], p: &str) -> (r: bool)
    ensures
        r == starts_with(s@, p@),
{
    let pc = chars_of(p);
    if pc.len() > s.len() {
        return false;
    }
    let mut i: usize = 0;
    while i < pc.len()
        invariant
            i <= pc@.len() <= s@.len(),
            pc@ == p@,
            forall|k: int| 0 <= k < i ==> s@[k] == pc@[k],
        decreases pc@.len() - i,
    {
        if s[i] != pc[i] {
            proof { assert(s@.take(pc@.len() as int)[i as int] != p@[i as int]); }
            return false;
        }
        i = i + 1;
    }
    proof { assert(s@.take(pc@.len() as int) =~= p@); }
    true
}


/// The state of the completeness scan: counts of open braces, brackets and
/// parentheses, whether the scan is inside a `"..."` string or a
/// `"""..."""` string, and the previous character.
pub struct CompletenessState {
    pub braces: i64,
    pub brackets: i64,
    pub parens: i64,
    pub in_string: bool,
    pub in_raw: bool,
    pub prev: char,
}

pub open spec fn completeness_start() -> CompletenessState {
    CompletenessState { braces: 0, brackets: 0, parens: 0, in_string: false, in_raw: false, prev: ' ' }
}

/// The count after reading `c` outside strings.
pub open spec fn count_after(st: CompletenessState, c: char) -> CompletenessState {
    if c == '{' {
        CompletenessState { braces: (st.braces + 1) as i64, ..st }
    } else if c == '}' {
        CompletenessState { braces: (st.braces - 1) as i64, ..st }
    } else if c == '[' {
        CompletenessState { brackets: (st.brackets + 1) as i64, ..st }
    } else if c == ']' {
        CompletenessState { brackets: (st.brackets - 1) as i64, ..st }
    } else if c == '(' {
        CompletenessState { parens: (st.parens + 1) as i64, ..st }
    } else if c == ')' {
        CompletenessState { parens: (st.parens - 1) as i64, ..st }
    } else {
        st
    }
}

/// One step of the completeness scan at position `i`.
pub open spec fn completeness_step(s: Seq<char>, i: int, st: CompletenessState) -> (CompletenessState, int) {
    let c = s[i];
    if !st.in_string && triple_quote_at(s, i) {
        (CompletenessState { in_raw: !st.in_raw, ..st }, 3)
    } else {
        let st1 = if !st.in_raw && c == '"' && st.prev != '\\' {
            CompletenessState { in_string: !st.in_string, ..st }
        } else {
            st
        };
        let st2 = if !st1.in_string && !st1.in_raw { count_after(st1, c) } else { st1 };
        (CompletenessState { prev: c, ..st2 }, 1)
    }
}

/// The state after scanning `s` from position `i` to the end.
pub open spec fn completeness_from(s: Seq<char>, i: int, st: CompletenessState) -> CompletenessState
    decreases s.len() - i,
{
    if i < 0 || i >= s.len() {
        st
    } else {
        let (next, n) = completeness_step(s, i, st);
        completeness_from(s, i + n, next)
    }
}

/// `s` ends with `p`.
pub open spec fn ends_with(s: Seq<char>, p: Seq<char>) -> bool {
    p.len() <= s.len() && s.subrange(s.len() - p.len(), s.len() as int) == p
}

/// The endings after which more input is expected.
pub open spec fn continuation_endings() -> Seq<Seq<char>> {
    seq![
        "&&"@, "||"@, "+"@, "-"@, "*"@, "/"@, "%"@, "=="@, "!="@, "<"@, ">"@, "<="@, ">="@,
        ","@, "->"@, "=>"@, "="@,
    ]
}

/// A piece of input is complete when it is blank, or when it has no open
/// string, bracket, brace or parenthesis and does not end (before trailing
/// white space) with an operator, a comma or an arrow.
pub open spec fn input_complete(s: Seq<char>) -> bool {
    if trim(s).len() == 0 {
        true
    } else {
        let st = completeness_from(s, 0, completeness_start());
        &&& !st.in_string && !st.in_raw
        &&& st.braces == 0 && st.brackets == 0 && st.parens == 0
        &&& forall|k: int| 0 <= k < continuation_endings().len()
                ==> !ends_with(trim_end(s), #[trigger] continuation_endings()[k])
    }
}

pub open spec fn completeness_bounded(st: CompletenessState, i: int) -> bool {
    -i <= st.braces <= i && -i <= st.brackets <= i && -i <= st.parens <= i
}

/// Tests whether `s[..n]` ends with `p`.
fn ends_with_chars(s: &[char], n: usize, p: &str) -> (r: bool)
    requires
        n <= s@.len(),
    ensures
        r == ends_with(s@.take(n as int), p@),
{
    let pc = chars_of(p);
    if pc.len() > n {
        return false;
    }
    let off = n - pc.len();
    let mut i: usize = 0;
    while i < pc.len()
        invariant
            i <= pc@.len(),
            off + pc@.len() == n <= s@.len(),
            pc@ == p@,
            forall|k: int| 0 <= k < i ==> s@[off + k] == pc@[k],
        decreases pc@.len() - i,
    {
        if s[off + i] != pc[i] {
            proof {
                let t = s@.take(n as int);
                assert(t.subrange(t.len() - p@.len(), t.len() as int)[i as int] == s@[off + i]);
            }
            return false;
        }
        i = i + 1;
    }
    proof {
        let t = s@.take(n as int);
        assert(t.subrange(t.len() - p@.len(), t.len() as int) =~= p@);
    }
    true
}

/// Tells whether a piece of REPL input is complete and can be evaluated.
pub fn is_input_complete(input: &str) -> (r: bool)
    requires
        input@.len() <= i64::MAX,
    ensures
        r == input_complete(input@),
{
    let chars = chars_of(input);
    let (a, b) = trim_bounds(chars.as_slice());
    if a == b {
        return true;
    }
    let n = chars.len();
    let mut st = CompletenessState { braces: 0, brackets: 0, parens: 0, in_string: false, in_raw: false, prev: ' ' };
    let mut i: usize = 0;
    while i < n
        invariant
            n == chars@.len() == input@.len(),
            n <= i64::MAX,
            chars@ == input@,
            i <= n,
            completeness_bounded(st, i as int),
            completeness_from(chars@, 0, completeness_start()) == completeness_from(chars@, i as int, st),
        decreases n - i,
    {
        let c = chars[i];
        if !st.in_string && n - i > 2 && c == '"' && chars[i + 1] == '"' && chars[i + 2] == '"' {
            st.in_raw = !st.in_raw;
            i = i + 3;
            continue;
        }
        if !st.in_raw && c == '"' && st.prev != '\\' {
            st.in_string = !st.in_string;
        }
        if !st.in_string && !st.in_raw {
            if c == '{' {
                st.braces = st.braces + 1;
            } else if c == '}' {
                st.braces = st.braces - 1;
            } else if c == '[' {
                st.brackets = st.brackets + 1;
            } else if c == ']' {
                st.brackets = st.brackets - 1;
            } else if c == '(' {
                st.parens = st.parens + 1;
            } else if c == ')' {
                st.parens = st.parens - 1;
            }
        }
        st.prev = c;
        i = i + 1;
    }
    if st.in_string || st.in_raw {
        return false;
    }
    if st.braces != 0 || st.brackets != 0 || st.parens != 0 {
        return false;
    }
    // the end of the input once trailing white space is removed
    let mut e = n;
    proof {
        assert(chars@.take(n as int) =~= chars@);
        assert(completeness_from(chars@, i as int, st) == st);
    }
    while e > 0 && crate::text::is_space_char(chars[e - 1])
        invariant
            e <= n == chars@.len(),
            trim_end(chars@) == trim_end(chars@.take(e as int)),
        decreases e,
    {
        proof {
            assert(chars@.take(e as int).drop_last() =~= chars@.take(e - 1));
        }
        e = e - 1;
    }
    proof {
        let t = chars@.take(e as int);
        if e > 0 {
            assert(t.last() == chars@[e - 1]);
        }
        assert(trim_end(t) == t);
        assert(chars@.take(n as int) =~= chars@);
    }
    let endings = ["&&", "||", "+", "-", "*", "/", "%", "==", "!=", "<", ">", "<=", ">=", ",", "->", "=>", "="];
    let mut k: usize = 0;
    while k < 17
        invariant
            k <= 17,
            e <= chars@.len(),
            chars@ == input@,
            trim_end(input@) == chars@.take(e as int),
            trim(input@).len() > 0,
            completeness_from(input@, 0, completeness_start()) == st,
            !st.in_string && !st.in_raw,
            st.braces == 0 && st.brackets == 0 && st.parens == 0,
            endings@.map_values(|p: &str| p@) == continuation_endings(),
            forall|j: int| 0 <= j < k ==> !ends_with(chars@.take(e as int), #[trigger] continuation_endings()[j]),
        decreases 17 - k,
    {
        if ends_with_chars(chars.as_slice(), e, endings[k]) {
            proof { assert(endings@[k as int]@ == continuation_endings()[k as int]); }
            return false;
        }
        proof { assert(endings@[k as int]@ == continuation_endings()[k as int]); }
        k = k + 1;
    }
    true
}

} // verus!

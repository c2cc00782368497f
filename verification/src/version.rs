//! Comparison of dotted version numbers such as `1.2.3`.

use vstd::prelude::*;

verus! {

/// `c` is an ASCII decimal digit.
pub open spec fn is_digit(c: char) -> bool {
    '0' <= c && c <= '9'
}

/// The value of an ASCII digit.
pub open spec fn digit_value(c: char) -> int {
    (c as int) - ('0' as int)
}

/// The decimal value of a sequence of digits.
pub open spec fn decimal_value(s: Seq<char>) -> int
    decreases s.len(),
{
    if s.len() == 0 {
        0
    } else {
        decimal_value(s.drop_last()) * 10 + digit_value(s.last())
    }
}

/// The text of an unsigned number with an optional leading `+` removed.
pub open spec fn unsigned_digits(s: Seq<char>) -> Seq<char> {
    if s.len() > 0 && s[0] == '+' {
        s.drop_first()
    } else {
        s
    }
}

/// Every character of `s` is a decimal digit.
pub open spec fn all_digits(s: Seq<char>) -> bool {
    forall|i: int| 0 <= i < s.len() ==> is_digit(#[trigger] s[i])
}

/// What `str::parse::<u32>` gives for `s`: an optional `+` followed by one
/// or more decimal digits whose value fits in a `u32`.
pub open spec fn parse_u32(s: Seq<char>) -> Option<u32> {
    let d = unsigned_digits(s);
    if d.len() > 0 && all_digits(d) && decimal_value(d) <= u32::MAX {
        Some(decimal_value(d) as u32)
    } else {
        None
    }
}

/// The pieces of `s` between occurrences of `sep`, as `str::split` yields
/// them (there is always one more piece than separators).
pub open spec fn split_on(s: Seq<char>, sep: char) -> Seq<Seq<char>>
    decreases s.len(),
{
    if s.len() == 0 {
        seq![Seq::empty()]
    } else {
        let r = split_on(s.drop_last(), sep);
        if s.last() == sep {
            r.push(Seq::empty())
        } else {
            r.update(r.len() - 1, r.last().push(s.last()))
        }
    }
}

/// The pieces that parse as `u32`, in order.
pub open spec fn parsed_pieces(pieces: Seq<Seq<char>>) -> Seq<u32>
    decreases pieces.len(),
{
    if pieces.len() == 0 {
        Seq::empty()
    } else {
        let r = parsed_pieces(pieces.drop_last());
        match parse_u32(pieces.last()) {
            Some(v) => r.push(v),
            None => r,
        }
    }
}

/// The numeric components of a version string.
pub open spec fn version_parts(s: Seq<char>) -> Seq<u32> {
    parsed_pieces(split_on(s, '.'))
}

/// The `i`-th component, or 0 where the version has fewer components.
pub open spec fn component(parts: Seq<u32>, i: int) -> u32 {
    if 0 <= i < parts.len() { parts[i] } else { 0 }
}

/// `remote` is greater than `current` in the lexicographic order of the
/// components from position `i` to position 2.
pub open spec fn newer_from(current: Seq<u32>, remote: Seq<u32>, i: int) -> bool
    decreases 3 - i,
{
    if i >= 3 {
        false
    } else if component(remote, i) > component(current, i) {
        true
    } else if component(remote, i) < component(current, i) {
        false
    } else {
        newer_from(current, remote, i + 1)
    }
}

/// `remote` names a later version than `current`, comparing the first three
/// numeric components.
pub open spec fn is_newer(current: Seq<char>, remote: Seq<char>) -> bool {
    newer_from(version_parts(current), version_parts(remote), 0)
}

/// Parses a piece as `str::parse::<u32>` does.
fn parse_piece(d: &Vec<char>) -> (r: Option<u32>)
    ensures
        r == parse_u32(d@),
{
    let start: usize = if d.len() > 0 && d[0] == '+' { 1 } else { 0 };
    let ghost digits = unsigned_digits(d@);
    proof {
        assert(digits =~= d@.subrange(start as int, d@.len() as int));
    }
    if start >= d.len() {
        return None;
    }
    let mut value: u64 = 0;
    let mut i = start;
    while i < d.len()
        invariant
            start <= i <= d@.len(),
            digits == unsigned_digits(d@),
            start == 1 <==> (d@.len() > 0 && d@[0] == '+'),
            digits =~= d@.subrange(start as int, d@.len() as int),
            value == decimal_value(d@.subrange(start as int, i as int)),
            value <= u32::MAX,
            forall|k: int| start <= k < i ==> is_digit(#[trigger] d@[k]),
        decreases d@.len() - i,
    {
        let c = d[i];
        proof {
            assert(d@.subrange(start as int, i + 1).drop_last() =~= d@.subrange(start as int, i as int));
        }
        if !('0' <= c && c <= '9') {
            proof {
                assert(digits[i - start] == c);
                assert(!is_digit(digits[i - start]));
                assert(!all_digits(digits));
            }
            return None;
        }
        let dv = (c as u32 - '0' as u32) as u64;
        let next = value * 10 + dv;
        if next > 4294967295u64 {
            proof {
                assert(digits.take((i + 1 - start) as int) =~= d@.subrange(start as int, i + 1));
                if all_digits(digits) {
                    lemma_decimal_prefix_bound(digits, (i + 1 - start) as int);
                }
            }
            return None;
        }
        value = next;
        i = i + 1;
    }
    proof {
        assert(d@.subrange(start as int, d@.len() as int) =~= digits);
        assert forall|k: int| 0 <= k < digits.len() implies is_digit(#[trigger] digits[k]) by {
            assert(digits[k] == d@[k + start]);
        }
        assert(all_digits(digits));
    }
    Some(value as u32)
}

/// The value of a digit string is at least the value of any of its prefixes.
proof fn lemma_decimal_prefix_bound(s: Seq<char>, n: int)
    requires
        0 <= n <= s.len(),
        forall|i: int| 0 <= i < s.len() ==> is_digit(#[trigger] s[i]),
    ensures
        decimal_value(s.take(n)) <= decimal_value(s),
    decreases s.len() - n,
{
    if n < s.len() {
        let t = s.drop_last();
        assert forall|i: int| 0 <= i < t.len() implies is_digit(#[trigger] t[i]) by {
            assert(t[i] == s[i]);
        }
        lemma_decimal_prefix_bound(t, n);
        assert(t.take(n) =~= s.take(n));
        lemma_decimal_nonneg(t);
        assert(is_digit(s[s.len() - 1]));
    } else {
        assert(s.take(n) =~= s);
    }
}

proof fn lemma_decimal_nonneg(s: Seq<char>)
    requires
        forall|i: int| 0 <= i < s.len() ==> is_digit(#[trigger] s[i]),
    ensures
        decimal_value(s) >= 0,
    decreases s.len(),
{
    if s.len() > 0 {
        let t = s.drop_last();
        assert forall|i: int| 0 <= i < t.len() implies is_digit(#[trigger] t[i]) by {
            assert(t[i] == s[i]);
        }
        lemma_decimal_nonneg(t);
        assert(is_digit(s[s.len() - 1]));
    }
}

/// The numeric components of a version string.
fn parse_version(s: &str) -> (parts: Vec<u32>)
    ensures
        parts@ == version_parts(s@),
{
    let cs = crate::text::chars_of(s);
    let mut parts: Vec<u32> = Vec::new();
    let mut piece: Vec<char> = Vec::new();
    let mut i: usize = 0;
    while i < cs.len()
        invariant
            i <= cs@.len(),
            cs@ == s@,
            split_on(cs@.take(i as int), '.').last() == piece@,
            parts@ == parsed_pieces(split_on(cs@.take(i as int), '.').drop_last()),
        decreases cs@.len() - i,
    {
        let ghost pre = cs@.take(i as int);
        let ghost next = cs@.take(i + 1);
        proof {
            assert(next.drop_last() =~= pre);
            lemma_split_nonempty(pre, '.');
        }
        let c = cs[i];
        if c == '.' {
            let p = parse_piece(&piece);
            proof {
                let r = split_on(pre, '.');
                assert(split_on(next, '.') == r.push(Seq::empty()));
                assert(split_on(next, '.').drop_last() =~= r);
                assert(r.drop_last().push(r.last()) =~= r);
            }
            match p {
                Some(v) => parts.push(v),
                None => {},
            }
            piece = Vec::new();
        } else {
            piece.push(c);
            proof {
                let r = split_on(pre, '.');
                assert(split_on(next, '.').drop_last() =~= r.drop_last());
            }
        }
        i = i + 1;
    }
    proof {
        assert(cs@.take(cs@.len() as int) =~= s@);
        let r = split_on(s@, '.');
        lemma_split_nonempty(s@, '.');
        assert(r.drop_last().push(r.last()) =~= r);
    }
    let p = parse_piece(&piece);
    match p {
        Some(v) => parts.push(v),
        None => {},
    }
    parts
}

proof fn lemma_split_nonempty(s: Seq<char>, sep: char)
    ensures
        split_on(s, sep).len() >= 1,
    decreases s.len(),
{
    if s.len() > 0 {
        lemma_split_nonempty(s.drop_last(), sep);
    }
}

/// Tells whether `remote` names a later version than `current`, comparing
/// the first three numeric components (missing components count as 0,
/// components that are not numbers are skipped).
pub fn is_newer_version(current: &str, remote: &str) -> (r: bool)
    ensures
        r == is_newer(current@, remote@),
{
    let cur = parse_version(current);
    let rem = parse_version(remote);
    let mut i: usize = 0;
    while i < 3
        invariant
            i <= 3,
            cur@ == version_parts(current@),
            rem@ == version_parts(remote@),
            is_newer(current@, remote@) == newer_from(cur@, rem@, i as int),
        decreases 3 - i,
    {
        let c = if i < cur.len() { cur[i] } else { 0 };
        let r = if i < rem.len() { rem[i] } else { 0 };
        if r > c {
            return true;
        } else if r < c {
            return false;
        }
        i = i + 1;
    }
    false
}

/// Comparing from any position is a strict order on component lists.
proof fn lemma_newer_from_order(a: Seq<u32>, b: Seq<u32>, c: Seq<u32>, i: int)
    ensures
        !newer_from(a, a, i),
        newer_from(a, b, i) ==> !newer_from(b, a, i),
        newer_from(a, b, i) && newer_from(b, c, i) ==> newer_from(a, c, i),
    decreases 3 - i,
{
    if i < 3 {
        lemma_newer_from_order(a, b, c, i + 1);
    }
}

/// No version is newer than itself.
pub proof fn law_version_irreflexive(v: Seq<char>)
    ensures
        !is_newer(v, v),
{
    lemma_newer_from_order(version_parts(v), version_parts(v), version_parts(v), 0);
}

/// When `b` is newer than `a`, `a` is not newer than `b`.
pub proof fn law_version_asymmetric(a: Seq<char>, b: Seq<char>)
    requires
        is_newer(a, b),
    ensures
        !is_newer(b, a),
{
    lemma_newer_from_order(version_parts(a), version_parts(b), version_parts(b), 0);
}

/// A version newer than one newer than `a` is newer than `a`.
pub proof fn law_version_transitive(a: Seq<char>, b: Seq<char>, c: Seq<char>)
    requires
        is_newer(a, b),
        is_newer(b, c),
    ensures
        is_newer(a, c),
{
    lemma_newer_from_order(version_parts(a), version_parts(b), version_parts(c), 0);
}

} // verus!

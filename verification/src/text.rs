//! Byte-offset slicing of UTF-8 text that never splits a character.
//!
//! Offsets are byte offsets into the UTF-8 encoding of a string. An offset
//! that falls inside a character is moved back to the start of that
//! character, so the result is always a valid string.

use vstd::prelude::*;
use vstd::utf8::*;
use vstd::string::*;

verus! {

broadcast use vstd::utf8::group_utf8_lib;

/// The largest character boundary of `bytes` that is at most `i`
/// (offset 0 is always a boundary).
pub open spec fn boundary_at_or_before(bytes: Seq<u8>, i: int) -> int
    decreases i,
{
    if i <= 0 {
        0
    } else if is_char_boundary(bytes, i) {
        i
    } else {
        boundary_at_or_before(bytes, i - 1)
    }
}

/// `i` clamped to at most `n`.
pub open spec fn clamp_to(i: int, n: int) -> int {
    if i < n { i } else { n }
}

/// The start offset that `safe_slice` uses for the requested `start`.
pub open spec fn slice_start(bytes: Seq<u8>, start: int) -> int {
    boundary_at_or_before(bytes, clamp_to(start, bytes.len() as int))
}

/// The end offset that `safe_slice` uses for the requested `end`.
pub open spec fn slice_end(bytes: Seq<u8>, end: int) -> int {
    boundary_at_or_before(bytes, clamp_to(end, bytes.len() as int))
}

/// The adjusted offset lies in `0..=i` and is a character boundary.
pub proof fn lemma_boundary_at_or_before(bytes: Seq<u8>, i: int)
    requires
        valid_utf8(bytes),
        i <= bytes.len(),
    ensures
        0 <= boundary_at_or_before(bytes, i),
        i >= 0 ==> boundary_at_or_before(bytes, i) <= i,
        is_char_boundary(bytes, boundary_at_or_before(bytes, i)),
        forall|j: int|
            boundary_at_or_before(bytes, i) < j <= i ==> !is_char_boundary(bytes, j),
    decreases i,
{
    is_char_boundary_start_end_of_seq(bytes);
    if i <= 0 {
    } else if is_char_boundary(bytes, i) {
    } else {
        lemma_boundary_at_or_before(bytes, i - 1);
    }
}

/// Boundaries are monotone: a larger request never gives a smaller offset.
pub proof fn lemma_boundary_monotone(bytes: Seq<u8>, i: int, j: int)
    requires
        i <= j,
    ensures
        boundary_at_or_before(bytes, i) <= boundary_at_or_before(bytes, j),
    decreases j - i,
{
    if i < j {
        lemma_boundary_monotone(bytes, i, j - 1);
        if j > 0 && !is_char_boundary(bytes, j) {
        } else if j > 0 {
            lemma_boundary_le(bytes, j - 1);
        }
    }
}

proof fn lemma_boundary_le(bytes: Seq<u8>, i: int)
    ensures
        boundary_at_or_before(bytes, i) <= if i < 0 { 0 } else { i },
    decreases i,
{
    if i > 0 && !is_char_boundary(bytes, i) {
        lemma_boundary_le(bytes, i - 1);
    }
}

/// A boundary of `bytes` at or before a boundary `e` is also a boundary of
/// the prefix of `bytes` that ends at `e`.
proof fn lemma_boundary_in_prefix(bytes: Seq<u8>, s: int, e: int)
    requires
        valid_utf8(bytes),
        0 <= s <= e <= bytes.len(),
        is_char_boundary(bytes, s),
        is_char_boundary(bytes, e),
    ensures
        valid_utf8(bytes.subrange(0, e)),
        is_char_boundary(bytes.subrange(0, e), s),
{
    valid_utf8_split(bytes, e);
    let pre = bytes.subrange(0, e);
    is_char_boundary_start_end_of_seq(pre);
    if s < e {
        is_char_boundary_iff_not_is_continuation_byte(bytes, s);
        is_char_boundary_iff_not_is_continuation_byte(pre, s);
        assert(pre[s] == bytes[s]);
    } else {
        assert(pre.len() == e);
    }
}

/// The length of the UTF-8 encoding of `s`, in bytes.
pub fn byte_len(s: &str) -> (n: usize)
    ensures
        n == s.spec_bytes().len(),
{
    s.as_bytes().len()
}

/// Moves `i` back to the nearest character boundary of `input`.
fn floor_to_boundary(input: &str, i: usize) -> (r: usize)
    requires
        i <= input.spec_bytes().len(),
    ensures
        r == boundary_at_or_before(input.spec_bytes(), i as int),
{
    let mut j = i;
    while j > 0 && !input.is_char_boundary(j)
        invariant
            j <= i,
            boundary_at_or_before(input.spec_bytes(), j as int)
                == boundary_at_or_before(input.spec_bytes(), i as int),
        decreases j,
    {
        j = j - 1;
    }
    j
}

/// Returns the part of `input` between the byte offsets `start` and `end`.
///
/// Both offsets are first clamped to the length of `input`; an offset that
/// falls inside a multi-byte character is moved back to the start of that
/// character.
pub fn safe_slice(input: &str, start: usize, end: usize) -> (r: &str)
    requires
        slice_start(input.spec_bytes(), start as int) <= slice_end(input.spec_bytes(), end as int),
    ensures
        r.spec_bytes() == input.spec_bytes().subrange(
            slice_start(input.spec_bytes(), start as int),
            slice_end(input.spec_bytes(), end as int),
        ),
{
    let ghost bytes = input.spec_bytes();
    let len = byte_len(input);
    let s0 = if start < len { start } else { len };
    let e0 = if end < len { end } else { len };
    let s = floor_to_boundary(input, s0);
    let e = floor_to_boundary(input, e0);
    proof {
        lemma_boundary_at_or_before(bytes, s0 as int);
        lemma_boundary_at_or_before(bytes, e0 as int);
        lemma_boundary_in_prefix(bytes, s as int, e as int);
    }
    let (head, _) = input.split_at(e);
    let (_, mid) = head.split_at(s);
    proof {
        assert(mid.spec_bytes() =~= bytes.subrange(s as int, e as int));
    }
    mid
}

/// The part of `input` before the byte offset `end`, cut at a character
/// boundary.
pub fn safe_prefix(input: &str, end: usize) -> (r: &str)
    ensures
        r.spec_bytes() == input.spec_bytes().subrange(0, slice_end(input.spec_bytes(), end as int)),
{
    proof {
        let b = input.spec_bytes();
        lemma_boundary_at_or_before(b, clamp_to(end as int, b.len() as int));
    }
    safe_slice(input, 0, end)
}

/// The part of `input` from the byte offset `start` on, cut at a character
/// boundary.
pub fn safe_suffix(input: &str, start: usize) -> (r: &str)
    ensures
        r.spec_bytes() == input.spec_bytes().subrange(
            slice_start(input.spec_bytes(), start as int),
            input.spec_bytes().len() as int,
        ),
{
    let len = byte_len(input);
    proof {
        let b = input.spec_bytes();
        is_char_boundary_start_end_of_seq(b);
        lemma_boundary_monotone(b, clamp_to(start as int, b.len() as int), b.len() as int);
    }
    safe_slice(input, start, len)
}

/// Cutting at one offset loses nothing: the prefix before the offset and
/// the suffix from it make up the whole text.
pub proof fn law_prefix_suffix_partition(input: &str, at: usize)
    ensures
        input.spec_bytes().subrange(0, slice_end(input.spec_bytes(), at as int))
            + input.spec_bytes().subrange(slice_start(input.spec_bytes(), at as int), input.spec_bytes().len() as int)
            == input.spec_bytes(),
{
    let b = input.spec_bytes();
    lemma_boundary_at_or_before(b, clamp_to(at as int, b.len() as int));
    assert(b.subrange(0, slice_end(b, at as int)) + b.subrange(slice_start(b, at as int), b.len() as int) =~= b);
}

/// Slicing from 0 to the length (or beyond) gives the whole text.
pub proof fn law_slice_whole(input: &str, end: usize)
    requires
        end >= input.spec_bytes().len(),
    ensures
        slice_start(input.spec_bytes(), 0) == 0,
        slice_end(input.spec_bytes(), end as int) == input.spec_bytes().len(),
        input.spec_bytes().subrange(slice_start(input.spec_bytes(), 0), slice_end(input.spec_bytes(), end as int))
            == input.spec_bytes(),
{
    let b = input.spec_bytes();
    is_char_boundary_start_end_of_seq(b);
    assert(b.subrange(0, b.len() as int) =~= b);
}

/// The offsets a slice is cut at are character boundaries no later than
/// the offsets asked for (or the end of the text).
pub proof fn law_slice_offsets(input: &str, start: usize, end: usize)
    ensures
        is_char_boundary(input.spec_bytes(), slice_start(input.spec_bytes(), start as int)),
        is_char_boundary(input.spec_bytes(), slice_end(input.spec_bytes(), end as int)),
        0 <= slice_start(input.spec_bytes(), start as int) <= start,
        0 <= slice_end(input.spec_bytes(), end as int) <= end,
        slice_end(input.spec_bytes(), end as int) <= input.spec_bytes().len(),
{
    let b = input.spec_bytes();
    lemma_boundary_at_or_before(b, clamp_to(start as int, b.len() as int));
    lemma_boundary_at_or_before(b, clamp_to(end as int, b.len() as int));
}

} // verus!

verus! {

/// The characters of `s`, in order.
pub fn chars_of(s: &str) -> (v: Vec<char>)
    ensures
        v@ == s@,
{
    let mut v: Vec<char> = Vec::new();
    for c in it: s.chars()
        invariant
            v@ == it.seq().take(it.index() as int),
            it.seq() == s@,
    {
        v.push(c);
    }
    v
}

} // verus!

verus! {

/// Calls `char::to_string`, which gives the one-character string of `c`.
#[verifier::external_body]
fn char_to_string(c: char) -> (s: String)
    ensures
        s@ == seq![c],
{
    c.to_string()
}

/// Appends one character to a string.
pub fn push_char(s: &mut String, c: char)
    ensures
        final(s)@ == old(s)@.push(c),
{
    let t = char_to_string(c);
    s.append(t.as_str());
}

/// The string made of the characters `v[from..to]`.
pub fn string_from_range(v: &[char], from: usize, to: usize) -> (s: String)
    requires
        from <= to <= v@.len(),
    ensures
        s@ == v@.subrange(from as int, to as int),
{
    let mut s = String::new();
    let mut i: usize = from;
    while i < to
        invariant
            from <= i <= to <= v@.len(),
            s@ == v@.subrange(from as int, i as int),
        decreases to - i,
    {
        push_char(&mut s, v[i]);
        proof { assert(v@.subrange(from as int, i + 1) =~= v@.subrange(from as int, i as int).push(v@[i as int])); }
        i = i + 1;
    }
    s
}

/// The string made of the characters of `v`.
pub fn string_from_chars(v: &[char]) -> (s: String)
    ensures
        s@ == v@,
{
    let s = string_from_range(v, 0, v.len());
    proof { assert(v@.subrange(0, v@.len() as int) =~= v@); }
    s
}

} // verus!

verus! {

/// `c` has the Unicode `White_Space` property, which is what
/// `char::is_whitespace` tests.
pub open spec fn is_space(c: char) -> bool {
    let u = c as u32;
    ||| 0x09 <= u <= 0x0D
    ||| u == 0x20
    ||| u == 0x85
    ||| u == 0xA0
    ||| u == 0x1680
    ||| 0x2000 <= u <= 0x200A
    ||| u == 0x2028
    ||| u == 0x2029
    ||| u == 0x202F
    ||| u == 0x205F
    ||| u == 0x3000
}

/// Tests for Unicode white space.
pub fn is_space_char(c: char) -> (r: bool)
    ensures
        r == is_space(c),
{
    let u = c as u32;
    (0x09 <= u && u <= 0x0D) || u == 0x20 || u == 0x85 || u == 0xA0 || u == 0x1680
        || (0x2000 <= u && u <= 0x200A) || u == 0x2028 || u == 0x2029 || u == 0x202F
        || u == 0x205F || u == 0x3000
}

/// `s` with its leading white space removed.
pub open spec fn trim_start(s: Seq<char>) -> Seq<char>
    decreases s.len(),
{
    if s.len() > 0 && is_space(s[0]) {
        trim_start(s.drop_first())
    } else {
        s
    }
}

/// `s` with its trailing white space removed.
pub open spec fn trim_end(s: Seq<char>) -> Seq<char>
    decreases s.len(),
{
    if s.len() > 0 && is_space(s.last()) {
        trim_end(s.drop_last())
    } else {
        s
    }
}

/// `s` with white space removed at both ends, as `str::trim` gives it.
pub open spec fn trim(s: Seq<char>) -> Seq<char> {
    trim_end(trim_start(s))
}

/// The index of the first character of `s[from..]` that is not white space
/// is `trim_start` seen from `from`.
proof fn lemma_trim_start_at(s: Seq<char>, from: int)
    requires
        0 <= from <= s.len(),
        forall|k: int| 0 <= k < from ==> is_space(#[trigger] s[k]),
    ensures
        trim_start(s) == trim_start(s.subrange(from, s.len() as int)),
    decreases from,
{
    if from > 0 {
        let t = s.drop_first();
        assert forall|k: int| 0 <= k < from - 1 implies is_space(#[trigger] t[k]) by {
            assert(t[k] == s[k + 1]);
        }
        lemma_trim_start_at(t, from - 1);
        assert(t.subrange(from - 1, t.len() as int) =~= s.subrange(from, s.len() as int));
        assert(is_space(s[0]));
    } else {
        assert(s.subrange(0, s.len() as int) =~= s);
    }
}

proof fn lemma_trim_end_at(s: Seq<char>, to: int)
    requires
        0 <= to <= s.len(),
        forall|k: int| to <= k < s.len() ==> is_space(#[trigger] s[k]),
    ensures
        trim_end(s) == trim_end(s.subrange(0, to)),
    decreases s.len() - to,
{
    if to < s.len() {
        let t = s.drop_last();
        assert forall|k: int| to <= k < t.len() implies is_space(#[trigger] t[k]) by {
            assert(t[k] == s[k]);
        }
        lemma_trim_end_at(t, to);
        assert(t.subrange(0, to) =~= s.subrange(0, to));
        assert(is_space(s[s.len() - 1]));
    } else {
        assert(s.subrange(0, to) =~= s);
    }
}

/// The bounds of the trimmed part of `v`: `v[a..b]` is `trim(v)`.
pub fn trim_bounds(v: &[char]) -> (r: (usize, usize))
    ensures
        r.0 <= r.1 <= v@.len(),
        v@.subrange(r.0 as int, r.1 as int) == trim(v@),
        r.0 == v@.len() || !is_space(v@[r.0 as int]),
        forall|k: int| 0 <= k < r.0 ==> is_space(#[trigger] v@[k]),
{
    let n = v.len();
    let mut a: usize = 0;
    while a < n && is_space_char(v[a])
        invariant
            a <= n == v@.len(),
            forall|k: int| 0 <= k < a ==> is_space(#[trigger] v@[k]),
        decreases n - a,
    {
        a = a + 1;
    }
    let mut b: usize = n;
    while b > a && is_space_char(v[b - 1])
        invariant
            a <= b <= n == v@.len(),
            forall|k: int| b <= k < n ==> is_space(#[trigger] v@[k]),
        decreases b - a,
    {
        b = b - 1;
    }
    proof {
        lemma_trim_start_at(v@, a as int);
        let s = v@.subrange(a as int, n as int);
        if a < n {
            assert(s[0] == v@[a as int]);
        }
        assert(trim_start(s) == s);
        lemma_trim_end_at(s, (b - a) as int);
        assert forall|k: int| (b - a) <= k < s.len() implies is_space(#[trigger] s[k]) by {
            assert(s[k] == v@[k + a]);
        }
        lemma_trim_end_at(s, (b - a) as int);
        let t = s.subrange(0, (b - a) as int);
        assert(t =~= v@.subrange(a as int, b as int));
        if b > a {
            assert(t.last() == v@[b - 1]);
        }
        assert(trim_end(t) == t);
    }
    (a, b)
}

/// The characters of `s` with white space removed at both ends.
pub fn trim_chars(s: &str) -> (r: Vec<char>)
    ensures
        r@ == trim(s@),
{
    let v = chars_of(s);
    let (a, b) = trim_bounds(v.as_slice());
    let mut r: Vec<char> = Vec::new();
    let mut i = a;
    while i < b
        invariant
            a <= i <= b <= v@.len(),
            r@ == v@.subrange(a as int, i as int),
        decreases b - i,
    {
        r.push(v[i]);
        proof { assert(v@.subrange(a as int, i + 1) =~= v@.subrange(a as int, i as int).push(v@[i as int])); }
        i = i + 1;
    }
    r
}

} // verus!

verus! {

/// The number of bytes of the UTF-8 encoding of `c`.
pub open spec fn char_width(c: char) -> nat {
    encode_scalar(c as u32).len()
}

/// The number of bytes of the UTF-8 encoding of `s`.
pub open spec fn utf8_len(s: Seq<char>) -> nat {
    encode_utf8(s).len()
}

/// `pos` is the byte offset of a character boundary of `s`: the offset at
/// which some prefix of `s` ends.
pub open spec fn is_boundary(s: Seq<char>, pos: int) -> bool {
    exists|k: int| 0 <= k <= s.len() && #[trigger] utf8_len(s.take(k)) == pos
}

/// The number of bytes of the UTF-8 encoding of `c`, as `char::len_utf8`
/// gives it.
pub fn utf8_width(c: char) -> (r: usize)
    ensures
        r == char_width(c),
        1 <= r <= 4,
{
    let u = c as u32;
    if u <= 0x7F {
        1
    } else if u <= 0x7FF {
        2
    } else if u <= 0xFFFF {
        3
    } else {
        4
    }
}

/// Encoding distributes over concatenation.
pub proof fn lemma_encode_concat(a: Seq<char>, b: Seq<char>)
    ensures
        encode_utf8(a + b) == encode_utf8(a) + encode_utf8(b),
    decreases a.len(),
{
    if a.len() == 0 {
        assert(a + b =~= b);
    } else {
        lemma_encode_concat(a.drop_first(), b);
        assert((a + b).drop_first() =~= a.drop_first() + b);
    }
}

/// The encoded length of a prefix grows by the width of the next character.
pub proof fn lemma_utf8_len_step(s: Seq<char>, k: int)
    requires
        0 <= k < s.len(),
    ensures
        utf8_len(s.take(k + 1)) == utf8_len(s.take(k)) + char_width(s[k]),
{
    lemma_encode_concat(s.take(k), seq![s[k]]);
    assert(s.take(k + 1) =~= s.take(k) + seq![s[k]]);
    let one = seq![s[k]];
    assert(one.drop_first() =~= Seq::<char>::empty());
    assert(encode_utf8(one.drop_first()) =~= Seq::<u8>::empty());
    assert(encode_utf8(one) =~= encode_scalar(s[k] as u32));
}

/// Character widths are between 1 and 4.
pub proof fn lemma_char_width(c: char)
    ensures
        1 <= char_width(c) <= 4,
{
}

/// Encoded prefix lengths are strictly increasing.
pub proof fn lemma_utf8_len_monotone(s: Seq<char>, i: int, j: int)
    requires
        0 <= i <= j <= s.len(),
    ensures
        utf8_len(s.take(i)) + (j - i) <= utf8_len(s.take(j)),
        utf8_len(s.take(j)) <= utf8_len(s.take(i)) + 4 * (j - i),
    decreases j - i,
{
    if i < j {
        lemma_utf8_len_monotone(s, i, j - 1);
        lemma_utf8_len_step(s, j - 1);
        lemma_char_width(s[j - 1]);
    }
}

/// The whole string's encoded length.
pub proof fn lemma_utf8_len_full(s: Seq<char>)
    ensures
        utf8_len(s.take(s.len() as int)) == utf8_len(s),
        utf8_len(s.take(0)) == 0,
{
    assert(s.take(s.len() as int) =~= s);
    assert(s.take(0) =~= Seq::<char>::empty());
}

/// The number of characters of `s` whose encoding ends at byte `pos`, which
/// must be a character boundary.
pub fn char_index_at(s: &Vec<char>, pos: usize) -> (k: usize)
    requires
        is_boundary(s@, pos as int),
    ensures
        k <= s@.len(),
        utf8_len(s@.take(k as int)) == pos,
{
    let ghost target = choose|k: int| 0 <= k <= s@.len() && #[trigger] utf8_len(s@.take(k)) == pos;
    let mut k: usize = 0;
    let mut acc: usize = 0;
    let n = s.len();
    proof { lemma_utf8_len_full(s@); }
    while acc < pos
        invariant
            n == s@.len(),
            k <= target <= s@.len(),
            acc == utf8_len(s@.take(k as int)),
            utf8_len(s@.take(target)) == pos,
            acc <= pos,
        decreases pos - acc,
    {
        proof {
            if k == target {
                assert(false);
            }
            lemma_utf8_len_step(s@, k as int);
            lemma_utf8_len_monotone(s@, k + 1, target);
        }
        acc = acc + utf8_width(s[k]);
        k = k + 1;
    }
    proof {
        if k < target {
            lemma_utf8_len_monotone(s@, k as int, target);
        }
    }
    k
}

/// The encoded length of `s[..k]`, computed.
pub fn utf8_len_of_prefix(s: &Vec<char>, k: usize) -> (n: usize)
    requires
        k <= s@.len(),
        utf8_len(s@) <= usize::MAX,
    ensures
        n == utf8_len(s@.take(k as int)),
{
    let mut i: usize = 0;
    let mut n: usize = 0;
    proof { lemma_utf8_len_full(s@); }
    while i < k
        invariant
            i <= k <= s@.len(),
            n == utf8_len(s@.take(i as int)),
            utf8_len(s@) <= usize::MAX,
        decreases k - i,
    {
        proof {
            lemma_utf8_len_step(s@, i as int);
            lemma_utf8_len_monotone(s@, i + 1, s@.len() as int);
            lemma_utf8_len_full(s@);
        }
        n = n + utf8_width(s[i]);
        i = i + 1;
    }
    n
}

/// The encoded length of a string, in terms of its characters.
pub proof fn lemma_spec_bytes_len(s: &str)
    ensures
        s.spec_bytes().len() == utf8_len(s@),
{
}

} // verus!

verus! {

/// The characters of `s` with leading white space removed.
pub fn trim_start_chars(s: &str) -> (r: Vec<char>)
    ensures
        r@ == trim_start(s@),
{
    let v = chars_of(s);
    let (a, _) = trim_bounds(v.as_slice());
    let mut r: Vec<char> = Vec::new();
    let mut i = a;
    while i < v.len()
        invariant
            a <= i <= v@.len(),
            r@ == v@.subrange(a as int, i as int),
        decreases v@.len() - i,
    {
        r.push(v[i]);
        proof { assert(v@.subrange(a as int, i + 1) =~= v@.subrange(a as int, i as int).push(v@[i as int])); }
        i = i + 1;
    }
    proof {
        lemma_trim_start_at_pub(v@, a as int);
    }
    r
}

/// Dropping leading white space up to a non-space character gives
/// `trim_start`.
pub proof fn lemma_trim_start_at_pub(s: Seq<char>, a: int)
    requires
        0 <= a <= s.len(),
        forall|k: int| 0 <= k < a ==> is_space(#[trigger] s[k]),
        a == s.len() || !is_space(s[a]),
    ensures
        trim_start(s) == s.subrange(a, s.len() as int),
{
    lemma_trim_start_at(s, a);
    let t = s.subrange(a, s.len() as int);
    if a < s.len() {
        assert(t[0] == s[a]);
    }
}

} // verus!

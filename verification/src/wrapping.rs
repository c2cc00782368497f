//! Greedy word wrapping of plain text for the output pane.
//!
//! Text is split into words at white space; words are put on a line, one
//! space apart, while the line stays within the width; a word longer than
//! the width is broken into pieces of the width.

use vstd::prelude::*;
use crate::text::{chars_of, is_space, is_space_char, string_from_chars};

verus! {

/// The words of `s`: its maximal runs of characters that are not white
/// space, in order, as `str::split_whitespace` gives them.
pub open spec fn words(s: Seq<char>) -> Seq<Seq<char>>
    decreases s.len(),
{
    if s.len() == 0 {
        Seq::empty()
    } else {
        let r = words(s.drop_last());
        let c = s.last();
        if is_space(c) {
            r
        } else if s.len() >= 2 && !is_space(s[s.len() - 2]) {
            r.update(r.len() - 1, r.last().push(c))
        } else {
            r.push(seq![c])
        }
    }
}

/// A text whose last character is not white space has a word.
proof fn lemma_words_nonempty(s: Seq<char>)
    requires
        s.len() > 0,
        !is_space(s.last()),
    ensures
        words(s).len() > 0,
    decreases s.len(),
{
    if s.len() >= 2 && !is_space(s[s.len() - 2]) {
        assert(s.drop_last().last() == s[s.len() - 2]);
        lemma_words_nonempty(s.drop_last());
    }
}

/// `w` cut into pieces of `width` characters, the last one possibly
/// shorter, as `<[char]>::chunks` cuts it.
pub open spec fn chunks(w: Seq<char>, width: nat) -> Seq<Seq<char>>
    decreases w.len(),
{
    if width == 0 || w.len() <= width {
        seq![w]
    } else {
        seq![w.take(width as int)] + chunks(w.skip(width as int), width)
    }
}

/// One word placed: the lines so far and the line being filled, after
/// `w`.
pub open spec fn wrap_step(lines: Seq<Seq<char>>, cur: Seq<char>, w: Seq<char>, width: nat) -> (Seq<Seq<char>>, Seq<char>) {
    let full = cur.len() + w.len() + 1 > width && cur.len() > 0;
    let lines1 = if full { lines.push(cur) } else { lines };
    let cur1 = if full { Seq::empty() } else { cur };
    if w.len() > width {
        let lines2 = if cur1.len() > 0 { lines1.push(cur1) } else { lines1 };
        (lines2 + chunks(w, width), Seq::empty())
    } else if cur1.len() > 0 {
        (lines1, cur1 + seq![' '] + w)
    } else {
        (lines1, w)
    }
}

/// All words placed, one after the other.
pub open spec fn wrap_all(ws: Seq<Seq<char>>, width: nat) -> (Seq<Seq<char>>, Seq<char>)
    decreases ws.len(),
{
    if ws.len() == 0 {
        (Seq::empty(), Seq::empty())
    } else {
        let (lines, cur) = wrap_all(ws.drop_last(), width);
        wrap_step(lines, cur, ws.last(), width)
    }
}

/// The lines `text` is wrapped into at `width` (the whole text as one line
/// when the width is 0; one empty line when there are no words).
pub open spec fn wrapped(text: Seq<char>, width: nat) -> Seq<Seq<char>> {
    if width == 0 {
        seq![text]
    } else {
        let (lines, cur) = wrap_all(words(text), width);
        let all = if cur.len() > 0 { lines.push(cur) } else { lines };
        if all.len() == 0 { seq![Seq::empty()] } else { all }
    }
}

/// The characters of each line.
pub open spec fn line_views(v: Seq<Vec<char>>) -> Seq<Seq<char>> {
    v.map_values(|l: Vec<char>| l@)
}

/// The characters of each string.
pub open spec fn string_views(v: Seq<String>) -> Seq<Seq<char>> {
    v.map_values(|l: String| l@)
}

/// Every line is at most `width` long.
pub open spec fn lines_fit(lines: Seq<Seq<char>>, width: nat) -> bool {
    forall|i: int| 0 <= i < lines.len() ==> (#[trigger] lines[i]).len() <= width
}

/// Splits `v` into words.
fn split_words(v: &Vec<char>) -> (r: Vec<Vec<char>>)
    ensures
        line_views(r@) == words(v@),
{
    let mut r: Vec<Vec<char>> = Vec::new();
    let mut i: usize = 0;
    proof {
        assert(v@.take(0) =~= Seq::<char>::empty());
        assert(line_views(r@) =~= Seq::<Seq<char>>::empty());
    }
    while i < v.len()
        invariant
            i <= v@.len(),
            line_views(r@) == words(v@.take(i as int)),
        decreases v@.len() - i,
    {
        let c = v[i];
        let ghost pre = v@.take(i as int);
        let ghost next = v@.take(i + 1);
        proof {
            assert(next.drop_last() =~= pre);
            assert(next.last() == c);
        }
        if is_space_char(c) {
        } else if i >= 1 && !is_space_char(v[i - 1]) {
            proof {
                assert(next[next.len() - 2] == v@[i - 1]);
                assert(pre.last() == v@[i - 1]);
                lemma_words_nonempty(pre);
            }
            let ghost before = r@;
            let mut last = r.pop().unwrap();
            last.push(c);
            r.push(last);
            proof {
                assert(line_views(r@) =~= line_views(before).update(line_views(before).len() - 1,
                    line_views(before).last().push(c)));
            }
        } else {
            let ghost before = r@;
            let mut w: Vec<char> = Vec::new();
            w.push(c);
            r.push(w);
            proof {
                assert(w@ =~= seq![c]);
                assert(line_views(r@) =~= line_views(before).push(seq![c]));
                if i >= 1 {
                    assert(next[next.len() - 2] == v@[i - 1]);
                }
            }
        }
        i = i + 1;
    }
    proof {
        assert(v@.take(v@.len() as int) =~= v@);
    }
    r
}

/// `w[from..to]` as a new vector.
fn sub_vec(w: &Vec<char>, from: usize, to: usize) -> (r: Vec<char>)
    requires
        from <= to <= w@.len(),
    ensures
        r@ == w@.subrange(from as int, to as int),
{
    let mut r: Vec<char> = Vec::new();
    let mut i = from;
    while i < to
        invariant
            from <= i <= to <= w@.len(),
            r@ == w@.subrange(from as int, i as int),
        decreases to - i,
    {
        r.push(w[i]);
        proof {
            assert(w@.subrange(from as int, i + 1) =~= w@.subrange(from as int, i as int).push(w@[i as int]));
        }
        i = i + 1;
    }
    r
}

/// Appends the pieces of `w` of `width` characters to `lines`.
fn push_chunks(lines: &mut Vec<Vec<char>>, w: &Vec<char>, width: usize)
    requires
        width > 0,
        w@.len() > width,
    ensures
        line_views(final(lines)@) == line_views(old(lines)@) + chunks(w@, width as nat),
{
    let mut start: usize = 0;
    let n = w.len();
    proof {
        assert(w@.skip(0) =~= w@);
    }
    while n - start > width
        invariant
            start <= n == w@.len(),
            width > 0,
            n - start > 0,
            line_views(lines@) + chunks(w@.skip(start as int), width as nat)
                == line_views(old(lines)@) + chunks(w@, width as nat),
        decreases n - start,
    {
        let piece = sub_vec(w, start, start + width);
        let ghost before = lines@;
        let ghost rest = w@.skip(start as int);
        lines.push(piece);
        proof {
            assert(rest.take(width as int) =~= piece@);
            assert(rest.skip(width as int) =~= w@.skip(start + width));
            assert(line_views(lines@) =~= line_views(before).push(piece@));
            assert(chunks(rest, width as nat) == seq![rest.take(width as int)] + chunks(rest.skip(width as int), width as nat));
            assert(line_views(before) + chunks(rest, width as nat) =~= line_views(lines@)
                + chunks(w@.skip(start + width), width as nat));
        }
        start = start + width;
    }
    let piece = sub_vec(w, start, n);
    let ghost before = lines@;
    lines.push(piece);
    proof {
        let rest = w@.skip(start as int);
        assert(rest =~= piece@);
        assert(chunks(rest, width as nat) == seq![rest]);
        assert(line_views(lines@) =~= line_views(before) + seq![piece@]);
    }
}

/// Wraps `text` into lines of at most `width` characters, breaking at
/// white space and breaking words longer than the width. A width of 0
/// leaves the text as one line.
pub fn wrap_text(text: &str, width: usize) -> (r: Vec<String>)
    ensures
        string_views(r@) == wrapped(text@, width as nat),
{
    if width == 0 {
        let mut r: Vec<String> = Vec::new();
        r.push(String::from_str(text));
        proof {
            assert(string_views(r@) =~= seq![text@]);
        }
        return r;
    }
    let chars = chars_of(text);
    let ws = split_words(&chars);
    let mut lines: Vec<Vec<char>> = Vec::new();
    let mut cur: Vec<char> = Vec::new();
    let mut k: usize = 0;
    proof {
        assert(line_views(ws@).take(0) =~= Seq::<Seq<char>>::empty());
        assert(line_views(lines@) =~= Seq::<Seq<char>>::empty());
        assert(cur@ =~= Seq::<char>::empty());
    }
    while k < ws.len()
        invariant
            k <= ws@.len(),
            width > 0,
            line_views(ws@) == words(text@),
            (line_views(lines@), cur@) == wrap_all(line_views(ws@).take(k as int), width as nat),
            cur@.len() <= width,
        decreases ws@.len() - k,
    {
        let w = &ws[k];
        let ghost wl = line_views(ws@);
        proof {
            assert(wl.take(k + 1).drop_last() =~= wl.take(k as int));
            assert(wl.take(k + 1).last() == w@);
        }
        let full = cur.len() > 0 && w.len() >= width - cur.len();
        if full {
            let ghost before = lines@;
            lines.push(cur);
            cur = Vec::new();
            proof {
                assert(line_views(lines@) =~= line_views(before).push(line_views(lines@).last()));
            }
        }
        if w.len() > width {
            if cur.len() > 0 {
                let ghost before = lines@;
                lines.push(cur);
                cur = Vec::new();
                proof {
                    assert(line_views(lines@) =~= line_views(before).push(line_views(lines@).last()));
                }
            }
            push_chunks(&mut lines, w, width);
            proof {
                assert(cur@ =~= Seq::<char>::empty());
            }
        } else if cur.len() > 0 {
            cur.push(' ');
            let mut i: usize = 0;
            let ghost base = cur@;
            while i < w.len()
                invariant
                    i <= w@.len(),
                    cur@ == base + w@.take(i as int),
                decreases w@.len() - i,
            {
                cur.push(w[i]);
                proof {
                    assert(w@.take(i + 1) =~= w@.take(i as int).push(w@[i as int]));
                }
                i = i + 1;
            }
            proof {
                assert(w@.take(w@.len() as int) =~= w@);
            }
        } else {
            cur = sub_vec(w, 0, w.len());
            proof {
                assert(w@.subrange(0, w@.len() as int) =~= w@);
            }
        }
        k = k + 1;
    }
    proof {
        assert(line_views(ws@).take(ws@.len() as int) =~= line_views(ws@));
    }
    if cur.len() > 0 {
        let ghost before = lines@;
        lines.push(cur);
        proof {
            assert(line_views(lines@) =~= line_views(before).push(line_views(lines@).last()));
        }
    }
    if lines.len() == 0 {
        lines.push(Vec::new());
        proof {
            assert(line_views(lines@) =~= seq![Seq::<char>::empty()]);
        }
    }
    let mut r: Vec<String> = Vec::new();
    let mut j: usize = 0;
    while j < lines.len()
        invariant
            j <= lines@.len(),
            string_views(r@) == line_views(lines@).take(j as int),
        decreases lines@.len() - j,
    {
        let s = string_from_chars(lines[j].as_slice());
        let ghost before = r@;
        r.push(s);
        proof {
            assert(string_views(r@) =~= string_views(before).push(s@));
            assert(line_views(lines@).take(j + 1) =~= line_views(lines@).take(j as int).push(lines@[j as int]@));
        }
        j = j + 1;
    }
    proof {
        assert(line_views(lines@).take(lines@.len() as int) =~= line_views(lines@));
    }
    r
}

proof fn lemma_chunks_fit(w: Seq<char>, width: nat)
    requires
        width > 0,
    ensures
        w.len() > width ==> lines_fit(chunks(w, width), width),
    decreases w.len(),
{
    if w.len() > width {
        let rest = w.skip(width as int);
        lemma_chunks_fit(rest, width);
        let c = chunks(w, width);
        assert forall|i: int| 0 <= i < c.len() implies (#[trigger] c[i]).len() <= width by {
            if i > 0 {
                if rest.len() > width {
                    assert(c[i] == chunks(rest, width)[i - 1]);
                } else {
                    assert(chunks(rest, width) == seq![rest]);
                }
            }
        }
    }
}

proof fn lemma_wrap_all_fit(ws: Seq<Seq<char>>, width: nat)
    requires
        width > 0,
    ensures
        lines_fit(wrap_all(ws, width).0, width),
        wrap_all(ws, width).1.len() <= width,
    decreases ws.len(),
{
    if ws.len() > 0 {
        lemma_wrap_all_fit(ws.drop_last(), width);
        let w = ws.last();
        lemma_chunks_fit(w, width);
        let (lines, cur) = wrap_all(ws.drop_last(), width);
        let r = wrap_step(lines, cur, w, width);
        assert forall|i: int| 0 <= i < r.0.len() implies (#[trigger] r.0[i]).len() <= width by {
            if i >= lines.len() + 2 {
                let full = cur.len() + w.len() + 1 > width && cur.len() > 0;
                let lines1 = if full { lines.push(cur) } else { lines };
                let cur1 = if full { Seq::<char>::empty() } else { cur };
                let lines2 = if cur1.len() > 0 { lines1.push(cur1) } else { lines1 };
                assert(r.0[i] == chunks(w, width)[i - lines2.len()]);
            } else if i >= lines.len() {
                let full = cur.len() + w.len() + 1 > width && cur.len() > 0;
                let lines1 = if full { lines.push(cur) } else { lines };
                let cur1 = if full { Seq::<char>::empty() } else { cur };
                let lines2 = if cur1.len() > 0 { lines1.push(cur1) } else { lines1 };
                if w.len() > width && i >= lines2.len() {
                    assert(r.0[i] == chunks(w, width)[i - lines2.len()]);
                }
            } else {
                assert(r.0[i] == lines[i]);
            }
        }
    }
}

/// Every line of wrapped text fits the width (for a width above 0).
pub proof fn law_wrapped_lines_fit(text: Seq<char>, width: nat)
    requires
        width > 0,
    ensures
        lines_fit(wrapped(text, width), width),
{
    lemma_wrap_all_fit(words(text), width);
    let (lines, cur) = wrap_all(words(text), width);
    let all = if cur.len() > 0 { lines.push(cur) } else { lines };
    assert(lines_fit(all, width)) by {
        assert forall|i: int| 0 <= i < all.len() implies (#[trigger] all[i]).len() <= width by {
            if i < lines.len() {
                assert(all[i] == lines[i]);
            }
        }
    }
}

/// Words joined one space apart.
pub open spec fn spaced(ws: Seq<Seq<char>>) -> Seq<char>
    decreases ws.len(),
{
    if ws.len() == 0 {
        Seq::empty()
    } else if ws.len() == 1 {
        ws[0]
    } else {
        spaced(ws.drop_last()) + seq![' '] + ws.last()
    }
}

/// The finished lines with the line being filled, if it holds anything.
pub open spec fn with_current(lines: Seq<Seq<char>>, cur: Seq<char>) -> Seq<Seq<char>> {
    if cur.len() > 0 { lines.push(cur) } else { lines }
}

/// Every word of a text holds at least one character.
proof fn lemma_words_filled(s: Seq<char>)
    ensures
        forall|i: int| 0 <= i < words(s).len() ==> (#[trigger] words(s)[i]).len() > 0,
    decreases s.len(),
{
    if s.len() > 0 {
        lemma_words_filled(s.drop_last());
        let r = words(s.drop_last());
        let c = s.last();
        if is_space(c) {
            assert(words(s) == r);
        } else if s.len() >= 2 && !is_space(s[s.len() - 2]) {
            assert(s.drop_last().last() == s[s.len() - 2]);
            lemma_words_nonempty(s.drop_last());
            let u = r.update(r.len() - 1, r.last().push(c));
            assert(words(s) == u);
            assert forall|i: int| 0 <= i < u.len() implies (#[trigger] u[i]).len() > 0 by {
                if i == r.len() - 1 {
                    assert(u[i] == r.last().push(c));
                } else {
                    assert(u[i] == r[i]);
                }
            }
        } else {
            let u = r.push(seq![c]);
            assert(words(s) == u);
            assert forall|i: int| 0 <= i < u.len() implies (#[trigger] u[i]).len() > 0 by {
                if i < r.len() {
                    assert(u[i] == r[i]);
                }
            }
        }
    }
}

/// One more line, one space after the others.
proof fn lemma_spaced_push(ws: Seq<Seq<char>>, w: Seq<char>)
    ensures
        spaced(ws.push(w)) == if ws.len() == 0 { w } else { spaced(ws) + seq![' '] + w },
{
    assert(ws.push(w).drop_last() =~= ws);
}

/// Placing words that fit keeps them in order, one space apart.
proof fn lemma_wrap_all_spaced(ws: Seq<Seq<char>>, width: nat)
    requires
        forall|i: int| 0 <= i < ws.len() ==> 0 < (#[trigger] ws[i]).len() <= width,
    ensures
        spaced(with_current(wrap_all(ws, width).0, wrap_all(ws, width).1)) == spaced(ws),
        ws.len() > 0 ==> with_current(wrap_all(ws, width).0, wrap_all(ws, width).1).len() > 0,
    decreases ws.len(),
{
    if ws.len() > 0 {
        let prev = ws.drop_last();
        lemma_wrap_all_spaced(prev, width);
        let (lines, cur) = wrap_all(prev, width);
        let w = ws.last();
        assert(w == ws[ws.len() - 1]);
        assert(ws == prev.push(w));
        lemma_spaced_push(prev, w);
        let full = cur.len() + w.len() + 1 > width && cur.len() > 0;
        if full {
            lemma_spaced_push(lines.push(cur), w);
            lemma_spaced_push(lines, cur);
        } else if cur.len() > 0 {
            lemma_spaced_push(lines, cur + seq![' '] + w);
            lemma_spaced_push(lines, cur);
            assert(spaced(lines) + seq![' '] + (cur + seq![' '] + w)
                =~= spaced(lines) + seq![' '] + cur + seq![' '] + w);
            assert(cur + seq![' '] + w =~= cur + seq![' '] + w);
        } else {
            lemma_spaced_push(lines, w);
        }
    }
}

/// Wrapping text whose words all fit keeps its words in order: the lines,
/// joined one space apart, are its words joined one space apart.
pub proof fn law_wrapping_keeps_words(text: Seq<char>, width: nat)
    requires
        width > 0,
        forall|i: int| 0 <= i < words(text).len() ==> (#[trigger] words(text)[i]).len() <= width,
    ensures
        spaced(wrapped(text, width)) == spaced(words(text)),
{
    lemma_words_filled(text);
    lemma_wrap_all_spaced(words(text), width);
    let (lines, cur) = wrap_all(words(text), width);
    if with_current(lines, cur).len() == 0 {
        assert(spaced(seq![Seq::<char>::empty()]) == Seq::<char>::empty());
    }
}

} // verus!

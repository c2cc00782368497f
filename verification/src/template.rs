//! Template strings of the REPL language: text with `${expression}`
//! interpolations, and the binding patterns that name results.

use vstd::prelude::*;
use crate::text::{chars_of, string_from_range};

verus! {

/// A piece of a template string.
#[derive(Debug, Clone)]
pub enum TemplateSegment {
    /// Plain text.
    Text(String),
    /// An interpolated expression `${expr}`, kept as its source text.
    Interpolation(String),
}

/// A binding pattern: `as name` or `as [a, b, c]`.
#[derive(Debug, Clone)]
pub enum Binding {
    Single(String),
    List(Vec<String>),
}

/// How a segment is written.
pub open spec fn segment_text(seg: TemplateSegment) -> Seq<char> {
    match seg {
        TemplateSegment::Text(t) => t@,
        TemplateSegment::Interpolation(e) => "${"@ + e@ + "}"@,
    }
}

/// How segments are written, one after the other.
pub open spec fn segments_text(segs: Seq<TemplateSegment>) -> Seq<char>
    decreases segs.len(),
{
    if segs.len() == 0 {
        Seq::empty()
    } else {
        segments_text(segs.drop_last()) + segment_text(segs.last())
    }
}

/// `s` opens an interpolation at `i`.
pub open spec fn opens_at(s: Seq<char>, i: int) -> bool {
    0 <= i && i + 1 < s.len() && s[i] == '$' && s[i + 1] == '{'
}

/// `s` holds no `}` from `from` on.
pub open spec fn no_close_from(s: Seq<char>, from: int) -> bool {
    forall|m: int| from <= m < s.len() ==> s[m] != '}'
}

/// The segments are as the parser makes them: texts are not empty, hold no
/// `${` and are never next to each other; interpolations hold no `}`.
pub open spec fn segments_wf(segs: Seq<TemplateSegment>) -> bool {
    forall|i: int| 0 <= i < segs.len() ==> match #[trigger] segs[i] {
        TemplateSegment::Text(t) => t@.len() > 0 && (forall|j: int| !opens_at(t@, j))
            && (i + 1 < segs.len() ==> segs[i + 1] is Interpolation),
        TemplateSegment::Interpolation(e) => no_close_from(e@, 0),
    }
}

/// One more segment keeps the list as the parser makes it, if it is a
/// proper text after an interpolation (or first), or an interpolation.
proof fn lemma_push_segment(before: Seq<TemplateSegment>, seg: TemplateSegment)
    requires
        segments_wf(before),
        match seg {
            TemplateSegment::Text(t) => t@.len() > 0 && (forall|j: int| !opens_at(t@, j))
                && (before.len() > 0 ==> before.last() is Interpolation),
            TemplateSegment::Interpolation(e) => no_close_from(e@, 0),
        },
    ensures
        segments_wf(before.push(seg)),
        segments_text(before.push(seg)) == segments_text(before) + segment_text(seg),
{
    let after = before.push(seg);
    assert(after.drop_last() =~= before);
    assert forall|k: int| 0 <= k < after.len() implies match #[trigger] after[k] {
        TemplateSegment::Text(t) => t@.len() > 0 && (forall|j: int| !opens_at(t@, j))
            && (k + 1 < after.len() ==> after[k + 1] is Interpolation),
        TemplateSegment::Interpolation(e) => no_close_from(e@, 0),
    } by {
        if k < after.len() - 1 {
            assert(after[k] == before[k]);
            if k + 1 < before.len() {
                assert(after[k + 1] == before[k + 1]);
            }
        }
    }
}

/// The characters of `v[from..to]` as a text segment.
fn text_segment(v: &Vec<char>, from: usize, to: usize) -> (r: TemplateSegment)
    requires
        from <= to <= v@.len(),
    ensures
        r matches TemplateSegment::Text(t) && t@ == v@.subrange(from as int, to as int),
{
    TemplateSegment::Text(string_from_range(v.as_slice(), from, to))
}

/// Splits the body of a template string into text and interpolations. An
/// interpolation ends at the first `}` after its `${`; one without a `}`
/// is an error, at the position of its `$`.
pub fn parse_template(body: &str) -> (r: Result<Vec<TemplateSegment>, usize>)
    ensures
        match r {
            Ok(segs) => segments_text(segs@) == body@ && segments_wf(segs@),
            Err(at) => opens_at(body@, at as int) && no_close_from(body@, at + 2),
        },
{
    let v = chars_of(body);
    let n = v.len();
    let mut segs: Vec<TemplateSegment> = Vec::new();
    let mut start: usize = 0;
    let mut i: usize = 0;
    proof {
        assert(v@.subrange(0, 0) =~= Seq::<char>::empty());
    }
    while i < n
        invariant
            start <= i <= n == v@.len(),
            v@ == body@,
            segments_text(segs@) == v@.subrange(0, start as int),
            segments_wf(segs@),
            segs@.len() > 0 ==> segs@.last() is Interpolation,
            forall|k: int| start <= k < i ==> !opens_at(v@, k),
        decreases n - i,
    {
        if v[i] == '$' && i + 1 < n && v[i + 1] == '{' {
            let mut j = i + 2;
            while j < n && v[j] != '}'
                invariant
                    i + 2 <= j <= n == v@.len(),
                    forall|m: int| i + 2 <= m < j ==> v@[m] != '}',
                decreases n - j,
            {
                j = j + 1;
            }
            if j >= n {
                return Err(i);
            }
            if start < i {
                let ghost before = segs@;
                let t = text_segment(&v, start, i);
                segs.push(t);
                proof {
                    let tv = v@.subrange(start as int, i as int);
                    assert(segs@.drop_last() =~= before);
                    assert(v@.subrange(0, i as int) =~= v@.subrange(0, start as int) + tv);
                    assert forall|k: int| !opens_at(tv, k) by {
                        if opens_at(tv, k) {
                            assert(opens_at(v@, start + k));
                        }
                    }
                    lemma_push_segment(before, segs@.last());
                }
            }
            let ghost before = segs@;
            let e = string_from_range(v.as_slice(), i + 2, j);
            segs.push(TemplateSegment::Interpolation(e));
            proof {
                reveal_strlit("${");
                reveal_strlit("}");
                assert(segs@.drop_last() =~= before);
                assert(v@.subrange(0, j + 1) =~= v@.subrange(0, i as int) + ("${"@ + v@.subrange(i + 2, j as int) + "}"@));
                assert(no_close_from(e@, 0));
                lemma_push_segment(before, segs@.last());
            }
            start = j + 1;
            i = j + 1;
        } else {
            i = i + 1;
        }
    }
    if start < n {
        let ghost before = segs@;
        let t = text_segment(&v, start, n);
        segs.push(t);
        proof {
            let tv = v@.subrange(start as int, n as int);
            assert(segs@.drop_last() =~= before);
            assert(v@.subrange(0, n as int) =~= v@.subrange(0, start as int) + tv);
            assert forall|k: int| !opens_at(tv, k) by {
                if opens_at(tv, k) {
                    assert(opens_at(v@, start + k));
                }
            }
            lemma_push_segment(before, segs@.last());
        }
    }
    proof {
        assert(v@.subrange(0, n as int) =~= v@);
    }
    Ok(segs)
}

/// Writes segments back as template text: texts as they are, expressions
/// as `${expr}`.
pub fn template_source(segs: &Vec<TemplateSegment>) -> (r: String)
    ensures
        r@ == segments_text(segs@),
{
    let mut out = String::new();
    let mut k: usize = 0;
    proof {
        assert(segs@.take(0) =~= Seq::<TemplateSegment>::empty());
    }
    while k < segs.len()
        invariant
            k <= segs@.len(),
            out@ == segments_text(segs@.take(k as int)),
        decreases segs@.len() - k,
    {
        match &segs[k] {
            TemplateSegment::Text(t) => {
                out.append(t.as_str());
            },
            TemplateSegment::Interpolation(e) => {
                proof {
                    reveal_strlit("${");
                    reveal_strlit("}");
                }
                out.append("${");
                out.append(e.as_str());
                out.append("}");
            },
        }
        proof {
            assert(segs@.take(k + 1).drop_last() =~= segs@.take(k as int));
            assert(segs@.take(k + 1).last() == segs@[k as int]);
        }
        k = k + 1;
    }
    proof {
        assert(segs@.take(segs@.len() as int) =~= segs@);
    }
    out
}

} // verus!

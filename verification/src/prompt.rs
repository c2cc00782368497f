//! Prompt templates: the `${name}` interpolation of the language written in
//! the `{{ name }}` form of the template engine, and the renderer that
//! holds the type registry that prompts describe their output with.

use vstd::prelude::*;
use crate::ir::IR;
use crate::text::{chars_of, push_char};

verus! {

/// The position of the first `}` in `s` at or after `from`, or the end of
/// `s`.
pub open spec fn close_at(s: Seq<char>, from: int) -> int
    decreases s.len() - from,
{
    if from >= s.len() {
        s.len() as int
    } else if s[from] == '}' {
        from
    } else {
        close_at(s, from + 1)
    }
}

/// The closing brace found from `from` on: where it is, and that none
/// comes before it.
pub proof fn lemma_close_at(s: Seq<char>, from: int)
    requires
        0 <= from,
    ensures
        from <= s.len() ==> from <= close_at(s, from) <= s.len(),
        close_at(s, from) < s.len() ==> s[close_at(s, from)] == '}',
        forall|m: int| from <= m < close_at(s, from) ==> s[m] != '}',
    decreases s.len() - from,
{
    if from < s.len() && s[from] != '}' {
        lemma_close_at(s, from + 1);
    }
}

/// `s` with every `${name}` written as `{{ name }}`. A `${` without a
/// closing `}` takes the rest of the text as the name.
pub open spec fn dollar_converted(s: Seq<char>) -> Seq<char>
    decreases s.len(),
{
    if s.len() == 0 {
        Seq::empty()
    } else if s.len() >= 2 && s[0] == '$' && s[1] == '{' {
        let k = close_at(s, 2);
        proof {
            lemma_close_at(s, 2);
        }
        let rest = if k < s.len() { s.skip(k + 1) } else { Seq::empty() };
        "{{ "@ + s.subrange(2, k) + " }}"@ + dollar_converted(rest)
    } else {
        seq![s[0]] + dollar_converted(s.drop_first())
    }
}

/// An interpolation keeps its name whole: `${name}` followed by any text
/// converts to `{{ name }}` followed by that text converted, for every
/// name without a `}`.
pub proof fn law_interpolation_keeps_its_name(name: Seq<char>, t: Seq<char>)
    requires
        forall|k: int| 0 <= k < name.len() ==> name[k] != '}',
    ensures
        dollar_converted(seq!['$', '{'] + name + seq!['}'] + t) == "{{ "@ + name + " }}"@ + dollar_converted(t),
{
    let s = seq!['$', '{'] + name + seq!['}'] + t;
    let c = (2 + name.len()) as int;
    lemma_close_at(s, 2);
    let k = close_at(s, 2);
    assert(s[c] == '}');
    if k < c {
        assert(s[k] == name[k - 2]);
    }
    if k > c {
        assert(s[c] != '}');
    }
    assert(k == c);
    assert(s.subrange(2, k) =~= name);
    assert(s.skip(k + 1) =~= t);
}

/// Text without `$` is kept as it is.
pub proof fn law_plain_text_is_kept(t: Seq<char>)
    requires
        forall|k: int| 0 <= k < t.len() ==> t[k] != '$',
    ensures
        dollar_converted(t) == t,
    decreases t.len(),
{
    if t.len() > 0 {
        law_plain_text_is_kept(t.drop_first());
        assert(seq![t[0]] + t.drop_first() =~= t);
    }
}

/// Writes the `${name}` interpolations of `template` in the `{{ name }}`
/// form of the template engine; everything else is kept as it is.
pub fn convert_dollar_syntax(template: &str) -> (r: String)
    ensures
        r@ == dollar_converted(template@),
{
    let v = chars_of(template);
    let n = v.len();
    let mut out = String::new();
    let mut i: usize = 0;
    proof {
        assert(v@.skip(0) =~= v@);
        assert(out@ + dollar_converted(v@) =~= dollar_converted(v@));
    }
    while i < n
        invariant
            i <= n == v@.len(),
            v@ == template@,
            out@ + dollar_converted(v@.skip(i as int)) == dollar_converted(v@),
        decreases n - i,
    {
        let ghost s = v@.skip(i as int);
        if v[i] == '$' && i + 1 < n && v[i + 1] == '{' {
            let mut j = i + 2;
            proof {
                lemma_close_at(s, 2);
            }
            while j < n && v[j] != '}'
                invariant
                    i + 2 <= j <= n == v@.len(),
                    s == v@.skip(i as int),
                    close_at(s, 2) == close_at(s, j - i),
                decreases n - j,
            {
                proof {
                    assert(s[j - i] == v@[j as int]);
                }
                j = j + 1;
            }
            proof {
                if j < n {
                    assert(s[j - i] == v@[j as int]);
                }
                assert(close_at(s, j - i) == j - i);
            }
            let ghost before = out@;
            out.append("{{ ");
            let mut m = i + 2;
            while m < j
                invariant
                    i + 2 <= m <= j <= n == v@.len(),
                    out@ == before + "{{ "@ + v@.subrange(i + 2, m as int),
                decreases j - m,
            {
                push_char(&mut out, v[m]);
                proof {
                    assert(v@.subrange(i + 2, m + 1) =~= v@.subrange(i + 2, m as int).push(v@[m as int]));
                }
                m = m + 1;
            }
            out.append(" }}");
            proof {
                assert(s.subrange(2, j - i) =~= v@.subrange(i + 2, j as int));
                if j < n {
                    assert(s.skip(j - i + 1) =~= v@.skip(j + 1));
                } else {
                    assert(v@.skip(n as int) =~= Seq::<char>::empty());
                }
                assert(out@ == before + ("{{ "@ + s.subrange(2, j - i) + " }}"@));
                assert(before + ("{{ "@ + s.subrange(2, j - i) + " }}"@) + dollar_converted(
                    if j < n { v@.skip(j + 1) } else { Seq::empty() })
                    =~= before + dollar_converted(s));
            }
            i = if j < n { j + 1 } else { n };
        } else {
            let ghost before = out@;
            push_char(&mut out, v[i]);
            proof {
                assert(s.drop_first() =~= v@.skip(i + 1));
                assert(before.push(v@[i as int]) + dollar_converted(v@.skip(i + 1)) =~= before + dollar_converted(s));
            }
            i = i + 1;
        }
    }
    proof {
        assert(v@.skip(n as int) =~= Seq::<char>::empty());
        assert(out@ + Seq::<char>::empty() =~= out@);
    }
    out
}

/// No `$` in `s` is directly followed by `{`.
pub open spec fn no_interpolation(s: Seq<char>) -> bool {
    forall|i: int| 0 <= i < s.len() - 1 ==> !(s[i] == '$' && #[trigger] s[i + 1] == '{')
}

/// A template without `${` comes out as it went in.
pub proof fn law_plain_template_unchanged(s: Seq<char>)
    requires
        no_interpolation(s),
    ensures
        dollar_converted(s) == s,
    decreases s.len(),
{
    if s.len() > 0 {
        let t = s.drop_first();
        assert forall|i: int| 0 <= i < t.len() - 1 implies !(t[i] == '$' && #[trigger] t[i + 1] == '{') by {
            assert(t[i] == s[i + 1] && t[i + 1] == s[i + 2]);
        }
        law_plain_template_unchanged(t);
        if s.len() >= 2 {
            assert(!(s[0] == '$' && s[1] == '{'));
        }
        assert(seq![s[0]] + t =~= s);
    }
}

/// What an LLM call was asked and answered: the function, its return type,
/// the prompt sent and the raw response.
#[derive(Debug, Clone, Default)]
pub struct LlmDebugInfo {
    pub function_name: String,
    pub return_type: String,
    pub prompt: String,
    pub raw_response: String,
}

/// Renders prompt templates against the type registry.
pub struct PromptRenderer<'a> {
    ir: &'a IR,
}

impl<'a> PromptRenderer<'a> {
    /// The registry the renderer describes output types with.
    pub closed spec fn registry(&self) -> &'a IR {
        self.ir
    }

    /// A renderer for the types of `ir`.
    pub fn new(ir: &'a IR) -> (r: Self)
        ensures
            r.registry() == ir,
    {
        PromptRenderer { ir }
    }
}

} // verus!

//! Small string and boolean helpers that the language exposes as builtins.

use vstd::prelude::*;
use vstd::string::*;

verus! {

/// The Unicode upper-case mapping of a string, as `str::to_uppercase`
/// computes it.
pub uninterp spec fn unicode_uppercase(s: Seq<char>) -> Seq<char>;

/// The Unicode lower-case mapping of a string, as `str::to_lowercase`
/// computes it.
pub uninterp spec fn unicode_lowercase(s: Seq<char>) -> Seq<char>;

/// Calls `str::to_uppercase`. Its result depends on the characters of `s`
/// alone; the contract names that result and claims nothing more of it.
#[verifier::external_body]
fn str_to_uppercase(s: &str) -> (r: String)
    ensures
        r@ == unicode_uppercase(s@),
{
    s.to_uppercase()
}

/// Calls `str::to_lowercase`. Its result depends on the characters of `s`
/// alone; the contract names that result and claims nothing more of it.
#[verifier::external_body]
fn str_to_lowercase(s: &str) -> (r: String)
    ensures
        r@ == unicode_lowercase(s@),
{
    s.to_lowercase()
}

/// Upper-cases a string.
pub fn upper(s: &str) -> (r: String)
    ensures
        r@ == unicode_uppercase(s@),
{
    str_to_uppercase(s)
}

/// Lower-cases a string.
pub fn lower(s: &str) -> (r: String)
    ensures
        r@ == unicode_lowercase(s@),
{
    str_to_lowercase(s)
}

/// The length of a string in bytes of its UTF-8 encoding.
pub fn length(s: &str) -> (r: i64)
    requires
        s.spec_bytes().len() <= i64::MAX,
    ensures
        r == s.spec_bytes().len(),
{
    let n = crate::text::byte_len(s);
    n as i64
}

/// Logical negation.
pub fn not(b: bool) -> (r: bool)
    ensures
        r == !b,
{
    !b
}

/// The items joined with `sep` between each two neighbours.
pub open spec fn joined(items: Seq<Seq<char>>, sep: Seq<char>) -> Seq<char>
    decreases items.len(),
{
    if items.len() == 0 {
        Seq::empty()
    } else if items.len() == 1 {
        items[0]
    } else {
        joined(items.drop_last(), sep) + sep + items.last()
    }
}

/// The views of a list of strings.
pub open spec fn string_views(items: Seq<String>) -> Seq<Seq<char>> {
    items.map_values(|s: String| s@)
}

/// Joins the strings with `separator` between each two neighbours.
pub fn join(items: Vec<String>, separator: &str) -> (r: String)
    ensures
        r@ == joined(string_views(items@), separator@),
{
    let mut res = String::new();
    let ghost views = string_views(items@);
    let mut i: usize = 0;
    while i < items.len()
        invariant
            i <= items.len(),
            views == string_views(items@),
            res@ == joined(views.take(i as int), separator@),
        decreases items.len() - i,
    {
        proof {
            assert(views.take(i + 1).drop_last() =~= views.take(i as int));
        }
        if i > 0 {
            res.append(separator);
        }
        res.append(items[i].as_str());
        proof {
            if i == 0 {
                assert(views.take(1) =~= seq![items@[0]@]);
                assert(res@ =~= joined(views.take(1), separator@));
            }
        }
        i = i + 1;
    }
    proof {
        assert(views.take(items.len() as int) =~= views);
    }
    res
}

} // verus!

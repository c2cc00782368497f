//! The output of a notebook cell from the value it evaluated to: a list of
//! records that all have the same fields is shown as a table, anything
//! else as text.

use vstd::prelude::*;
use vstd::relations::{sorted_by, total_ordering};
use crate::text::chars_of;
use crate::ir::str_eq;
use crate::notebook::CellOutput;

verus! {

// ---------------------------------------------------------------------------
// The order of strings
// ---------------------------------------------------------------------------

/// `a` comes no later than `b` in the order of `str`: character by
/// character, a prefix first.
pub open spec fn text_le(a: Seq<char>, b: Seq<char>) -> bool
    decreases a.len(),
{
    if a.len() == 0 {
        true
    } else if b.len() == 0 {
        false
    } else if a[0] != b[0] {
        a[0] < b[0]
    } else {
        text_le(a.drop_first(), b.drop_first())
    }
}

/// The order of strings as a relation.
pub open spec fn text_order() -> spec_fn(Seq<char>, Seq<char>) -> bool {
    |a: Seq<char>, b: Seq<char>| text_le(a, b)
}

proof fn lemma_text_le_reflexive(a: Seq<char>)
    ensures
        text_le(a, a),
    decreases a.len(),
{
    if a.len() > 0 {
        lemma_text_le_reflexive(a.drop_first());
    }
}

proof fn lemma_text_le_antisymmetric(a: Seq<char>, b: Seq<char>)
    requires
        text_le(a, b),
        text_le(b, a),
    ensures
        a == b,
    decreases a.len(),
{
    if a.len() > 0 && b.len() > 0 {
        lemma_text_le_antisymmetric(a.drop_first(), b.drop_first());
        assert(a =~= seq![a[0]] + a.drop_first());
        assert(b =~= seq![b[0]] + b.drop_first());
    } else {
        assert(a =~= b);
    }
}

proof fn lemma_text_le_transitive(a: Seq<char>, b: Seq<char>, c: Seq<char>)
    requires
        text_le(a, b),
        text_le(b, c),
    ensures
        text_le(a, c),
    decreases a.len(),
{
    if a.len() > 0 && b.len() > 0 && c.len() > 0 && a[0] == b[0] && b[0] == c[0] {
        lemma_text_le_transitive(a.drop_first(), b.drop_first(), c.drop_first());
    }
}

proof fn lemma_text_le_total(a: Seq<char>, b: Seq<char>)
    ensures
        text_le(a, b) || text_le(b, a),
    decreases a.len(),
{
    if a.len() > 0 && b.len() > 0 && a[0] == b[0] {
        lemma_text_le_total(a.drop_first(), b.drop_first());
    }
}

/// The order of strings is a total order.
proof fn lemma_text_order_total()
    ensures
        total_ordering(text_order()),
{
    assert forall|x: Seq<char>| #[trigger] text_order()(x, x) by {
        lemma_text_le_reflexive(x);
    }
    assert forall|x: Seq<char>, y: Seq<char>| #[trigger] text_order()(x, y) && #[trigger] text_order()(y, x)
        implies x == y by {
        lemma_text_le_antisymmetric(x, y);
    }
    assert forall|x: Seq<char>, y: Seq<char>, z: Seq<char>|
        #[trigger] text_order()(x, y) && #[trigger] text_order()(y, z) implies text_order()(x, z) by {
        lemma_text_le_transitive(x, y, z);
    }
    assert forall|x: Seq<char>, y: Seq<char>| #[trigger] text_order()(x, y) || #[trigger] text_order()(y, x) by {
        lemma_text_le_total(x, y);
    }
}

/// Compares two strings in the order of `str`.
fn str_le(a: &str, b: &str) -> (r: bool)
    ensures
        r == text_le(a@, b@),
{
    let x = chars_of(a);
    let y = chars_of(b);
    let mut i: usize = 0;
    proof {
        assert(a@.skip(0) =~= a@);
        assert(b@.skip(0) =~= b@);
    }
    while i < x.len() && i < y.len() && x[i] == y[i]
        invariant
            i <= x@.len(),
            i <= y@.len(),
            x@ == a@,
            y@ == b@,
            text_le(a@, b@) == text_le(a@.skip(i as int), b@.skip(i as int)),
        decreases x@.len() - i,
    {
        proof {
            assert(a@.skip(i as int).drop_first() =~= a@.skip(i + 1));
            assert(b@.skip(i as int).drop_first() =~= b@.skip(i + 1));
        }
        i = i + 1;
    }
    proof {
        if i < x@.len() && i < y@.len() {
            assert(a@.skip(i as int)[0] == x@[i as int]);
            assert(b@.skip(i as int)[0] == y@[i as int]);
        }
    }
    if i == x.len() {
        true
    } else if i == y.len() {
        false
    } else {
        x[i] < y[i]
    }
}

/// The characters of each string.
pub open spec fn views(v: Seq<String>) -> Seq<Seq<char>> {
    v.map_values(|s: String| s@)
}

/// Sorts strings in the order of `str`.
fn sort_strings(v: Vec<String>) -> (r: Vec<String>)
    ensures
        views(r@) == views(v@).sort_by(text_order()),
{
    proof {
        lemma_text_order_total();
    }
    let mut out: Vec<String> = Vec::new();
    let mut i: usize = 0;
    proof {
        assert(views(out@) =~= Seq::<Seq<char>>::empty());
        assert(views(v@).take(0) =~= Seq::<Seq<char>>::empty());
    }
    while i < v.len()
        invariant
            i <= v@.len(),
            total_ordering(text_order()),
            sorted_by(views(out@), text_order()),
            views(out@).to_multiset() == views(v@).take(i as int).to_multiset(),
        decreases v@.len() - i,
    {
        let x = v[i].clone();
        let mut j: usize = 0;
        while j < out.len() && str_le(out[j].as_str(), x.as_str())
            invariant
                j <= out@.len(),
                total_ordering(text_order()),
                forall|k: int| 0 <= k < j ==> text_le(#[trigger] out@[k]@, x@),
            decreases out@.len() - j,
        {
            j = j + 1;
        }
        let ghost before = views(out@);
        let ghost old_out = out@;
        let ghost xv = x@;
        out.insert(j, x);
        proof {
            let after = views(out@);
            assert(after =~= before.insert(j as int, xv));
            assert(sorted_by(after, text_order())) by {
                assert forall|a: int, b: int| 0 <= a < b < after.len()
                    implies #[trigger] text_order()(after[a], after[b]) by {
                    if b == j {
                        assert(text_le(old_out[a]@, xv));
                        assert(before[a] == old_out[a]@);
                    } else if a == j {
                        assert(before[j as int] == old_out[j as int]@);
                        assert(!text_le(before[j as int], xv));
                        lemma_text_le_total(before[j as int], xv);
                        if b > j + 1 {
                            assert(text_order()(before[j as int], before[b - 1]));
                            lemma_text_le_transitive(xv, before[j as int], before[b - 1]);
                        }
                    } else if a < j && b > j {
                        assert(text_order()(before[a], before[b - 1]));
                    } else if a > j {
                        assert(text_order()(before[a - 1], before[b - 1]));
                    } else {
                        assert(text_order()(before[a], before[b]));
                    }
                }
            }
            vstd::seq_lib::to_multiset_insert(before, j as int, xv);
            assert(views(v@).take(i + 1) =~= views(v@).take(i as int).push(xv));
            vstd::seq_lib::to_multiset_build(views(v@).take(i as int), xv);
        }
        i = i + 1;
    }
    proof {
        assert(views(v@).take(v@.len() as int) =~= views(v@));
        views(v@).lemma_sort_by_ensures(text_order());
        vstd::seq_lib::lemma_sorted_unique(views(out@), views(v@).sort_by(text_order()), text_order());
    }
    out
}

// ---------------------------------------------------------------------------
// Values as a cell reads them
// ---------------------------------------------------------------------------

/// What a table cell shows of a value: a string as it is, null as
/// nothing, any other value by its display text.
#[derive(Debug, Clone)]
pub enum CellValue {
    Str(String),
    Null,
    Other(String),
}

/// A value as a cell's output reads it: null; a list, with each element as
/// a record (its fields in order) when it is one, and the display text of
/// the list; or any other value with its display text.
#[derive(Debug, Clone)]
pub enum ValueShape {
    Null,
    List { items: Vec<Option<Vec<(String, CellValue)>>>, shown: String },
    Other(String),
}

/// The text a table cell shows for `v`.
pub open spec fn cell_text(v: CellValue) -> Seq<char> {
    match v {
        CellValue::Str(s) => s@,
        CellValue::Null => Seq::empty(),
        CellValue::Other(s) => s@,
    }
}

/// The fields of a record, or none for an element that is not one.
pub open spec fn record(item: Option<Vec<(String, CellValue)>>) -> Seq<(String, CellValue)> {
    match item {
        Some(m) => m@,
        None => Seq::empty(),
    }
}

/// The names of a record's fields, in order.
pub open spec fn field_names(m: Seq<(String, CellValue)>) -> Seq<Seq<char>> {
    m.map_values(|f: (String, CellValue)| f.0@)
}

/// The text of the first field named `h` of a record, or nothing.
pub open spec fn field_text(m: Seq<(String, CellValue)>, h: Seq<char>) -> Seq<char>
    decreases m.len(),
{
    if m.len() == 0 {
        Seq::empty()
    } else if m[0].0@ == h {
        cell_text(m[0].1)
    } else {
        field_text(m.drop_first(), h)
    }
}

/// The headers of a table made of `items`: the field names of the first
/// record, sorted.
pub open spec fn table_headers(items: Seq<Option<Vec<(String, CellValue)>>>) -> Seq<Seq<char>> {
    field_names(record(items[0])).sort_by(text_order())
}

/// `items` make a table: there is at least one, each is a record, and each
/// has the field names of the first (in any order, as often).
pub open spec fn is_table(items: Seq<Option<Vec<(String, CellValue)>>>) -> bool {
    &&& items.len() > 0
    &&& forall|i: int| 0 <= i < items.len() ==> (#[trigger] items[i]) is Some
    &&& forall|i: int| 0 <= i < items.len()
        ==> field_names(record(#[trigger] items[i])).sort_by(text_order()) == table_headers(items)
}

/// `out` is the table of `items`: the sorted headers, and for each record a
/// row with, under each header, the text of its first field of that name.
pub open spec fn table_of(items: Seq<Option<Vec<(String, CellValue)>>>, out: CellOutput) -> bool {
    out matches CellOutput::Table { headers, rows } && {
        &&& views(headers@) == table_headers(items)
        &&& rows@.len() == items.len()
        &&& forall|i: int| 0 <= i < rows@.len() ==> {
            &&& (#[trigger] rows@[i])@.len() == headers@.len()
            &&& forall|j: int| 0 <= j < headers@.len()
                ==> (#[trigger] rows@[i]@[j])@ == field_text(record(items[i]), headers@[j]@)
        }
    }
}

/// The names of a record's fields.
fn names_of(m: &Vec<(String, CellValue)>) -> (r: Vec<String>)
    ensures
        views(r@) == field_names(m@),
{
    let mut r: Vec<String> = Vec::new();
    let mut i: usize = 0;
    while i < m.len()
        invariant
            i <= m@.len(),
            r@.len() == i,
            forall|k: int| 0 <= k < i ==> (#[trigger] r@[k])@ == m@[k].0@,
        decreases m@.len() - i,
    {
        let name = m[i].0.clone();
        r.push(name);
        i = i + 1;
    }
    proof {
        assert forall|k: int| 0 <= k < r@.len() implies views(r@)[k] == field_names(m@)[k] by {
            assert(r@[k]@ == m@[k].0@);
        }
        assert(views(r@) =~= field_names(m@));
    }
    r
}

/// Whether two lists of strings are equal.
fn strings_eq(a: &Vec<String>, b: &Vec<String>) -> (r: bool)
    ensures
        r == (views(a@) == views(b@)),
{
    if a.len() != b.len() {
        proof {
            assert(views(a@).len() != views(b@).len());
        }
        return false;
    }
    let mut i: usize = 0;
    while i < a.len()
        invariant
            i <= a@.len(),
            a@.len() == b@.len(),
            forall|k: int| 0 <= k < i ==> a@[k]@ == b@[k]@,
        decreases a@.len() - i,
    {
        if !str_eq(a[i].as_str(), b[i].as_str()) {
            proof {
                assert(views(a@)[i as int] != views(b@)[i as int]);
            }
            return false;
        }
        i = i + 1;
    }
    proof {
        assert(views(a@) =~= views(b@));
    }
    true
}

/// The text of the first field named `h` of `m`, or nothing.
fn cell_of(m: &Vec<(String, CellValue)>, h: &str) -> (r: String)
    ensures
        r@ == field_text(m@, h@),
{
    let mut i: usize = 0;
    proof {
        assert(m@.skip(0) =~= m@);
    }
    while i < m.len()
        invariant
            i <= m@.len(),
            field_text(m@, h@) == field_text(m@.skip(i as int), h@),
        decreases m@.len() - i,
    {
        proof {
            assert(m@.skip(i as int)[0] == m@[i as int]);
            assert(m@.skip(i as int).drop_first() =~= m@.skip(i + 1));
        }
        if str_eq(m[i].0.as_str(), h) {
            return CellOutput::value_to_cell_string(&m[i].1);
        }
        i = i + 1;
    }
    String::new()
}

/// `out` is the output of a cell whose value is `value`: nothing for null,
/// the table of a list of records with the same fields, and the display
/// text of anything else.
pub open spec fn output_of(value: ValueShape, out: CellOutput) -> bool {
    match value {
        ValueShape::Null => out is Empty,
        ValueShape::List { items, shown } => if is_table(items@) {
            table_of(items@, out)
        } else {
            out matches CellOutput::Text(t) && t@ == shown@
        },
        ValueShape::Other(shown) => out matches CellOutput::Text(t) && t@ == shown@,
    }
}

impl CellOutput {
    /// The output of a cell whose value is `value`: a list of records that
    /// all have the same fields is shown as a table.
    pub fn from_value(value: ValueShape) -> (r: CellOutput)
        ensures
            output_of(value, r),
    {
        match value {
            ValueShape::Null => CellOutput::Empty,
            ValueShape::List { items, shown } => {
                if items.len() > 0 {
                    if let Some(table) = CellOutput::try_as_table(&items) {
                        return table;
                    }
                }
                CellOutput::Text(shown)
            },
            ValueShape::Other(shown) => CellOutput::Text(shown),
        }
    }

    /// Reads a list of records with the same fields as a table: its headers
    /// are the sorted field names, its rows the records' field texts under
    /// them. `None` when the list is empty, an element is not a record, or
    /// two records have different fields.
    pub fn try_as_table(items: &Vec<Option<Vec<(String, CellValue)>>>) -> (r: Option<CellOutput>)
        ensures
            r is Some <==> is_table(items@),
            r matches Some(t) ==> table_of(items@, t),
    {
        if items.len() == 0 {
            return None;
        }
        let mut i: usize = 0;
        while i < items.len()
            invariant
                i <= items@.len(),
                forall|k: int| 0 <= k < i ==> (#[trigger] items@[k]) is Some,
            decreases items@.len() - i,
        {
            if items[i].is_none() {
                return None;
            }
            i = i + 1;
        }
        let first = match &items[0] {
            Some(m) => m,
            None => return None,
        };
        let headers = sort_strings(names_of(first));
        let mut i: usize = 0;
        while i < items.len()
            invariant
                i <= items@.len(),
                items@.len() > 0,
                forall|k: int| 0 <= k < items@.len() ==> (#[trigger] items@[k]) is Some,
                views(headers@) == table_headers(items@),
                forall|k: int| 0 <= k < i
                    ==> field_names(record(#[trigger] items@[k])).sort_by(text_order()) == table_headers(items@),
            decreases items@.len() - i,
        {
            let m = match &items[i] {
                Some(m) => m,
                None => return None,
            };
            let keys = sort_strings(names_of(m));
            if !strings_eq(&keys, &headers) {
                proof {
                    assert(record(items@[i as int]) == m@);
                }
                return None;
            }
            i = i + 1;
        }
        let mut rows: Vec<Vec<String>> = Vec::new();
        let mut i: usize = 0;
        while i < items.len()
            invariant
                i <= items@.len(),
                forall|k: int| 0 <= k < items@.len() ==> (#[trigger] items@[k]) is Some,
                rows@.len() == i,
                forall|k: int| 0 <= k < i ==> {
                    &&& (#[trigger] rows@[k])@.len() == headers@.len()
                    &&& forall|j: int| 0 <= j < headers@.len()
                        ==> (#[trigger] rows@[k]@[j])@ == field_text(record(items@[k]), headers@[j]@)
                },
            decreases items@.len() - i,
        {
            let m = match &items[i] {
                Some(m) => m,
                None => return None,
            };
            let mut row: Vec<String> = Vec::new();
            let mut j: usize = 0;
            while j < headers.len()
                invariant
                    j <= headers@.len(),
                    row@.len() == j,
                    forall|l: int| 0 <= l < j ==> (#[trigger] row@[l])@ == field_text(m@, headers@[l]@),
                decreases headers@.len() - j,
            {
                row.push(cell_of(m, headers[j].as_str()));
                j = j + 1;
            }
            proof {
                assert(record(items@[i as int]) == m@);
            }
            rows.push(row);
            i = i + 1;
        }
        Some(CellOutput::Table { headers, rows })
    }

    /// The text a table cell shows for a value.
    pub fn value_to_cell_string(value: &CellValue) -> (r: String)
        ensures
            r@ == cell_text(*value),
    {
        match value {
            CellValue::Str(s) => s.clone(),
            CellValue::Null => String::new(),
            CellValue::Other(s) => s.clone(),
        }
    }
}

} // verus!

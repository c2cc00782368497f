//! Drawing a table as framed lines: a top rule, the headings, a rule, up to
//! twenty rows, a bottom rule and a count of the rows.

use vstd::prelude::*;
use crate::text::{
    byte_len, chars_of, lemma_spec_bytes_len, lemma_utf8_len_full, lemma_utf8_len_monotone, push_char, string_from_range,
    utf8_len,
};
use crate::tree_render::{decimal_string, decimal_text, lines_view, piece_view, pieces_view, Piece, PieceView, Tone};

verus! {

/// The widest a column is drawn, in bytes of its heading or cells.
pub const MAX_COLUMN_WIDTH: usize = 30;

/// The number of rows drawn.
pub const MAX_SHOWN_ROWS: usize = 20;

/// The cells of each row, by their characters.
pub open spec fn rows_view(rows: Seq<Vec<String>>) -> Seq<Seq<Seq<char>>> {
    rows.map_values(|r: Vec<String>| r@.map_values(|c: String| c@))
}

/// The headings, by their characters.
pub open spec fn columns_view(columns: Seq<String>) -> Seq<Seq<char>> {
    columns.map_values(|c: String| c@)
}

/// The largest of `init` and the byte lengths of the cells in column `i` of
/// `rows` (rows too short to reach it count for nothing).
pub open spec fn widest(rows: Seq<Seq<Seq<char>>>, i: int, init: nat) -> nat
    decreases rows.len(),
{
    if rows.len() == 0 {
        init
    } else {
        let w = widest(rows.drop_last(), i, init);
        let last = rows.last();
        if 0 <= i < last.len() && utf8_len(last[i]) > w {
            utf8_len(last[i])
        } else {
            w
        }
    }
}

/// The width column `i` is drawn at: its widest heading or cell, at most
/// the limit.
pub open spec fn column_width(columns: Seq<Seq<char>>, rows: Seq<Seq<Seq<char>>>, i: int) -> nat {
    let w = widest(rows, i, utf8_len(columns[i]));
    if w < MAX_COLUMN_WIDTH { w } else { MAX_COLUMN_WIDTH as nat }
}

/// The widths of all columns.
pub open spec fn column_widths(columns: Seq<Seq<char>>, rows: Seq<Seq<Seq<char>>>) -> Seq<nat> {
    Seq::new(columns.len(), |i: int| column_width(columns, rows, i))
}

/// `n` copies of `c`.
pub open spec fn repeated(c: char, n: nat) -> Seq<char> {
    Seq::new(n, |_i: int| c)
}

/// The horizontal runs of a rule, one per column and two wider than it,
/// joined by `mid`.
pub open spec fn rule_body(widths: Seq<nat>, mid: char) -> Seq<char>
    decreases widths.len(),
{
    if widths.len() == 0 {
        Seq::empty()
    } else if widths.len() == 1 {
        repeated('─', widths[0] + 2)
    } else {
        rule_body(widths.drop_last(), mid) + seq![mid] + repeated('─', widths.last() + 2)
    }
}

/// A rule across the table, between the corner or edge marks `left` and
/// `right`.
pub open spec fn rule(widths: Seq<nat>, left: char, mid: char, right: char) -> Seq<char> {
    seq![left] + rule_body(widths, mid) + seq![right]
}

/// `text` padded with spaces on the right to `w` characters, as `{:<w}`
/// formats it (a longer text is kept whole).
pub open spec fn padded(text: Seq<char>, w: nat) -> Seq<char> {
    if text.len() < w { text + repeated(' ', (w - text.len()) as nat) } else { text }
}

/// A cell as drawn: padded, with a space on each side.
pub open spec fn cell_text(text: Seq<char>, w: nat) -> Seq<char> {
    seq![' '] + padded(text, w) + seq![' ']
}

/// A cell's content as shown: one longer than the limit in bytes is cut to
/// its first 27 characters and an ellipsis.
pub open spec fn shown_cell(cell: Seq<char>) -> Seq<char> {
    if utf8_len(cell) > MAX_COLUMN_WIDTH {
        cell.take(if cell.len() < 27 { cell.len() as int } else { 27 }) + "..."@
    } else {
        cell
    }
}

/// The vertical bar between cells.
pub open spec fn bar() -> PieceView {
    PieceView { text: seq!['│'], tone: Tone::Border }
}

/// The cells `texts`, each followed by a bar, drawn at the widths of their
/// columns.
pub open spec fn cell_pieces(texts: Seq<Seq<char>>, widths: Seq<nat>, tone: Tone) -> Seq<PieceView>
    decreases texts.len(),
{
    if texts.len() == 0 {
        Seq::empty()
    } else {
        cell_pieces(texts.drop_last(), widths, tone) + seq![
            PieceView { text: cell_text(texts.last(), widths[texts.len() - 1]), tone },
            bar(),
        ]
    }
}

/// A data row: the cells that have a column, as shown.
pub open spec fn row_line(row: Seq<Seq<char>>, widths: Seq<nat>, tone: Tone) -> Seq<PieceView> {
    let n = if row.len() < widths.len() { row.len() } else { widths.len() };
    seq![bar()] + cell_pieces(row.take(n as int).map_values(|c: Seq<char>| shown_cell(c)), widths, tone)
}

/// The count of rows below the table.
pub open spec fn count_text(n: nat) -> Seq<char> {
    if n > MAX_SHOWN_ROWS {
        "("@ + decimal_text(MAX_SHOWN_ROWS as nat) + " rows shown, "@ + decimal_text(n) + " total)"@
    } else {
        "("@ + decimal_text(n) + " rows)"@
    }
}

/// The lines of a table with headings `columns` and cells `rows`, the row
/// `selected` (counted from the first) highlighted.
pub open spec fn table_lines(columns: Seq<Seq<char>>, rows: Seq<Seq<Seq<char>>>, selected: Option<usize>) -> Seq<
    Seq<PieceView>,
> {
    if columns.len() == 0 {
        seq![seq![PieceView { text: "(empty table)"@, tone: Tone::Plain }]]
    } else {
        let ws = column_widths(columns, rows);
        let shown = if rows.len() < MAX_SHOWN_ROWS { rows.len() } else { MAX_SHOWN_ROWS as nat };
        seq![
            seq![PieceView { text: rule(ws, '┌', '┬', '┐'), tone: Tone::Border }],
            seq![bar()] + cell_pieces(columns, ws, Tone::Heading),
            seq![PieceView { text: rule(ws, '├', '┼', '┤'), tone: Tone::Border }],
        ] + Seq::new(
            shown,
            |k: int| row_line(rows[k], ws, if selected == Some(k as usize) { Tone::Selected } else { Tone::Plain }),
        ) + seq![
            seq![PieceView { text: rule(ws, '└', '┴', '┘'), tone: Tone::Border }],
            seq![PieceView { text: count_text(rows.len()), tone: Tone::Note }],
        ]
    }
}

/// The byte length of a string.
fn text_bytes(s: &String) -> (n: usize)
    ensures
        n == utf8_len(s@),
{
    let t = s.as_str();
    proof {
        lemma_spec_bytes_len(t);
    }
    byte_len(t)
}

/// The drawn width of each column.
fn compute_widths(columns: &Vec<String>, rows: &Vec<Vec<String>>) -> (ws: Vec<usize>)
    ensures
        ws@.len() == columns@.len(),
        forall|i: int| 0 <= i < ws@.len() ==> ws@[i] == column_width(columns_view(columns@), rows_view(rows@), i),
{
    let ghost cv = columns_view(columns@);
    let ghost rv = rows_view(rows@);
    let mut ws: Vec<usize> = Vec::new();
    let mut i: usize = 0;
    while i < columns.len()
        invariant
            i <= columns@.len(),
            cv == columns_view(columns@),
            ws@.len() == i,
            forall|j: int| 0 <= j < i ==> ws@[j] == utf8_len(cv[j]),
        decreases columns@.len() - i,
    {
        let n = text_bytes(&columns[i]);
        ws.push(n);
        i = i + 1;
    }
    let mut r: usize = 0;
    while r < rows.len()
        invariant
            r <= rows@.len(),
            cv == columns_view(columns@),
            rv == rows_view(rows@),
            ws@.len() == columns@.len(),
            forall|j: int| 0 <= j < ws@.len() ==> ws@[j] == widest(rv.take(r as int), j, utf8_len(cv[j])),
        decreases rows@.len() - r,
    {
        let row = &rows[r];
        let ghost before = ws@;
        let mut c: usize = 0;
        while c < row.len() && c < ws.len()
            invariant
                c <= row@.len(),
                row@ == rows@[r as int]@,
                ws@.len() == before.len(),
                forall|j: int| 0 <= j < ws@.len() ==> ws@[j] == if j < c && utf8_len(row@[j]@) > before[j] {
                    utf8_len(row@[j]@) as int
                } else {
                    before[j] as int
                },
            decreases row@.len() - c,
        {
            let n = text_bytes(&row[c]);
            if n > ws[c] {
                ws.set(c, n);
            }
            c = c + 1;
        }
        proof {
            let t = rv.take(r + 1);
            assert(t.drop_last() =~= rv.take(r as int));
            assert(t.last() == rv[r as int]);
            assert(rv[r as int] == row@.map_values(|x: String| x@));
            assert forall|j: int| 0 <= j < ws@.len() implies ws@[j] == widest(t, j, utf8_len(cv[j])) by {
                if j < row@.len() {
                    assert(rv[r as int][j] == row@[j]@);
                }
            }
        }
        r = r + 1;
    }
    proof {
        assert(rv.take(rows@.len() as int) =~= rv);
    }
    let mut k: usize = 0;
    while k < ws.len()
        invariant
            k <= ws@.len() == columns@.len(),
            cv == columns_view(columns@),
            rv == rows_view(rows@),
            forall|j: int| 0 <= j < k ==> ws@[j] == column_width(cv, rv, j),
            forall|j: int| k <= j < ws@.len() ==> ws@[j] == widest(rv, j, utf8_len(cv[j])),
        decreases ws@.len() - k,
    {
        if ws[k] > MAX_COLUMN_WIDTH {
            ws.set(k, MAX_COLUMN_WIDTH);
        }
        k = k + 1;
    }
    ws
}

/// The widths as numbers.
pub open spec fn widths_view(ws: Seq<usize>) -> Seq<nat> {
    ws.map_values(|w: usize| w as nat)
}

/// Appends `n` copies of `c`.
fn push_repeated(s: &mut String, c: char, n: usize)
    ensures
        final(s)@ == old(s)@ + repeated(c, n as nat),
{
    let ghost start = s@;
    let mut i: usize = 0;
    while i < n
        invariant
            i <= n,
            s@ == start + repeated(c, i as nat),
        decreases n - i,
    {
        push_char(s, c);
        proof {
            assert(start + repeated(c, (i + 1) as nat) =~= (start + repeated(c, i as nat)).push(c));
        }
        i = i + 1;
    }
}

/// A rule across columns of widths `ws`.
fn rule_string(ws: &Vec<usize>, left: char, mid: char, right: char) -> (r: String)
    requires
        forall|i: int| 0 <= i < ws@.len() ==> ws@[i] <= MAX_COLUMN_WIDTH,
    ensures
        r@ == rule(widths_view(ws@), left, mid, right),
{
    let ghost wv = widths_view(ws@);
    let mut s = String::new();
    push_char(&mut s, left);
    proof {
        assert(wv.take(0).len() == 0);
        assert(s@ =~= seq![left] + rule_body(wv.take(0), mid));
    }
    let mut i: usize = 0;
    while i < ws.len()
        invariant
            i <= ws@.len(),
            wv == widths_view(ws@),
            forall|j: int| 0 <= j < ws@.len() ==> ws@[j] <= MAX_COLUMN_WIDTH,
            s@ == seq![left] + rule_body(wv.take(i as int), mid),
        decreases ws@.len() - i,
    {
        let ghost before = s@;
        if i > 0 {
            push_char(&mut s, mid);
        }
        push_repeated(&mut s, '─', ws[i] + 2);
        proof {
            let t = wv.take(i + 1);
            assert(t.drop_last() =~= wv.take(i as int));
            assert(t.last() == ws@[i as int] as nat);
            if i == 0 {
                assert(s@ =~= seq![left] + rule_body(t, mid));
            } else {
                assert(s@ =~= seq![left] + rule_body(t, mid));
            }
        }
        i = i + 1;
    }
    push_char(&mut s, right);
    proof {
        assert(wv.take(ws@.len() as int) =~= wv);
    }
    s
}

/// A cell drawn at width `w`.
fn cell_string(text: &str, w: usize) -> (r: String)
    ensures
        r@ == cell_text(text@, w as nat),
{
    let mut s = String::new();
    push_char(&mut s, ' ');
    s.append(text);
    let n = text.unicode_len();
    if n < w {
        push_repeated(&mut s, ' ', w - n);
    }
    push_char(&mut s, ' ');
    proof {
        assert(s@ =~= cell_text(text@, w as nat));
    }
    s
}

/// A cell's content as shown.
fn shown_string(cell: &String) -> (r: String)
    ensures
        r@ == shown_cell(cell@),
{
    if text_bytes(cell) > MAX_COLUMN_WIDTH {
        let v = chars_of(cell.as_str());
        let k = if v.len() < 27 { v.len() } else { 27 };
        let mut t = string_from_range(v.as_slice(), 0, k);
        t.append("...");
        proof {
            assert(v@.subrange(0, k as int) =~= cell@.take(k as int));
        }
        t
    } else {
        String::from_str(cell.as_str())
    }
}

fn bar_piece() -> (p: Piece)
    ensures
        piece_view(p) == bar(),
{
    let mut t = String::new();
    push_char(&mut t, '│');
    Piece { text: t, tone: Tone::Border }
}

/// The heading line.
fn heading_line(columns: &Vec<String>, ws: &Vec<usize>) -> (r: Vec<Piece>)
    requires
        ws@.len() == columns@.len(),
    ensures
        pieces_view(r@) == seq![bar()] + cell_pieces(columns_view(columns@), widths_view(ws@), Tone::Heading),
{
    let ghost cv = columns_view(columns@);
    let ghost wv = widths_view(ws@);
    let mut v: Vec<Piece> = Vec::new();
    v.push(bar_piece());
    proof {
        assert(cv.take(0).len() == 0);
        assert(pieces_view(v@) =~= seq![bar()] + cell_pieces(cv.take(0), wv, Tone::Heading));
    }
    let mut i: usize = 0;
    while i < columns.len()
        invariant
            i <= columns@.len() == ws@.len(),
            cv == columns_view(columns@),
            wv == widths_view(ws@),
            pieces_view(v@) == seq![bar()] + cell_pieces(cv.take(i as int), wv, Tone::Heading),
        decreases columns@.len() - i,
    {
        let ghost before = v@;
        let t = cell_string(columns[i].as_str(), ws[i]);
        v.push(Piece { text: t, tone: Tone::Heading });
        v.push(bar_piece());
        proof {
            let c = cv.take(i + 1);
            assert(c.drop_last() =~= cv.take(i as int));
            assert(c.last() == columns@[i as int]@);
            assert(pieces_view(v@) =~= pieces_view(before) + seq![
                PieceView { text: cell_text(c.last(), wv[i as int]), tone: Tone::Heading },
                bar(),
            ]);
        }
        i = i + 1;
    }
    proof {
        assert(cv.take(columns@.len() as int) =~= cv);
    }
    v
}

/// A data row's line.
fn row_pieces(row: &Vec<String>, ws: &Vec<usize>, tone: Tone) -> (r: Vec<Piece>)
    ensures
        pieces_view(r@) == row_line(row@.map_values(|c: String| c@), widths_view(ws@), tone),
{
    let ghost rv = row@.map_values(|c: String| c@);
    let ghost wv = widths_view(ws@);
    let n = if row.len() < ws.len() { row.len() } else { ws.len() };
    let ghost texts = rv.take(n as int).map_values(|c: Seq<char>| shown_cell(c));
    let mut v: Vec<Piece> = Vec::new();
    v.push(bar_piece());
    proof {
        assert(texts.take(0).len() == 0);
        assert(pieces_view(v@) =~= seq![bar()] + cell_pieces(texts.take(0), wv, tone));
    }
    let mut c: usize = 0;
    while c < n
        invariant
            c <= n <= row@.len(),
            n <= ws@.len(),
            rv == row@.map_values(|c: String| c@),
            wv == widths_view(ws@),
            texts == rv.take(n as int).map_values(|c: Seq<char>| shown_cell(c)),
            pieces_view(v@) == seq![bar()] + cell_pieces(texts.take(c as int), wv, tone),
        decreases n - c,
    {
        let ghost before = v@;
        let s = shown_string(&row[c]);
        let t = cell_string(s.as_str(), ws[c]);
        v.push(Piece { text: t, tone });
        v.push(bar_piece());
        proof {
            let x = texts.take(c + 1);
            assert(x.drop_last() =~= texts.take(c as int));
            assert(x.last() == shown_cell(row@[c as int]@));
            assert(pieces_view(v@) =~= pieces_view(before) + seq![
                PieceView { text: cell_text(x.last(), wv[c as int]), tone },
                bar(),
            ]);
        }
        c = c + 1;
    }
    proof {
        assert(texts.take(n as int) =~= texts);
    }
    v
}

/// The count of rows.
fn count_string(n: usize) -> (r: String)
    ensures
        r@ == count_text(n as nat),
{
    let mut s = String::from_str("(");
    if n > MAX_SHOWN_ROWS {
        let a = decimal_string(MAX_SHOWN_ROWS);
        s.append(a.as_str());
        s.append(" rows shown, ");
        let b = decimal_string(n);
        s.append(b.as_str());
        s.append(" total)");
    } else {
        let b = decimal_string(n);
        s.append(b.as_str());
        s.append(" rows)");
    }
    proof {
        assert(s@ =~= count_text(n as nat));
    }
    s
}

/// Draws a table with headings `columns` and cells `rows`: the first
/// twenty rows, with the row `selected` highlighted, each column as wide as
/// its widest heading or cell up to thirty bytes; an empty line of
/// headings draws a note instead. The width available is not used.
pub fn table_to_lines(columns: &Vec<String>, rows: &Vec<Vec<String>>, selected: Option<usize>, width: usize) -> (r: Vec<
    Vec<Piece>,
>)
    ensures
        lines_view(r@) == table_lines(columns_view(columns@), rows_view(rows@), selected),
{
    let ghost cv = columns_view(columns@);
    let ghost rv = rows_view(rows@);
    let mut lines: Vec<Vec<Piece>> = Vec::new();
    if columns.len() == 0 {
        let mut l: Vec<Piece> = Vec::new();
        l.push(Piece { text: String::from_str("(empty table)"), tone: Tone::Plain });
        proof {
            assert(pieces_view(l@) =~= seq![PieceView { text: "(empty table)"@, tone: Tone::Plain }]);
        }
        lines.push(l);
        proof {
            assert(lines_view(lines@) =~= table_lines(cv, rv, selected));
        }
        return lines;
    }
    let ws = compute_widths(columns, rows);
    let ghost wv = widths_view(ws@);
    proof {
        assert(wv =~= column_widths(cv, rv));
    }
    let mut top: Vec<Piece> = Vec::new();
    top.push(Piece { text: rule_string(&ws, '┌', '┬', '┐'), tone: Tone::Border });
    proof {
        assert(pieces_view(top@) =~= seq![PieceView { text: rule(wv, '┌', '┬', '┐'), tone: Tone::Border }]);
    }
    lines.push(top);
    lines.push(heading_line(columns, &ws));
    let mut sep: Vec<Piece> = Vec::new();
    sep.push(Piece { text: rule_string(&ws, '├', '┼', '┤'), tone: Tone::Border });
    proof {
        assert(pieces_view(sep@) =~= seq![PieceView { text: rule(wv, '├', '┼', '┤'), tone: Tone::Border }]);
    }
    lines.push(sep);
    let ghost head = lines_view(lines@);
    proof {
        assert(head =~= seq![
            seq![PieceView { text: rule(wv, '┌', '┬', '┐'), tone: Tone::Border }],
            seq![bar()] + cell_pieces(cv, wv, Tone::Heading),
            seq![PieceView { text: rule(wv, '├', '┼', '┤'), tone: Tone::Border }],
        ]);
    }
    let shown = if rows.len() < MAX_SHOWN_ROWS { rows.len() } else { MAX_SHOWN_ROWS };
    let mut k: usize = 0;
    while k < shown
        invariant
            k <= shown <= rows@.len(),
            rv == rows_view(rows@),
            wv == widths_view(ws@),
            lines_view(lines@) == head + Seq::new(
                k as nat,
                |j: int| row_line(rv[j], wv, if selected == Some(j as usize) { Tone::Selected } else { Tone::Plain }),
            ),
        decreases shown - k,
    {
        let tone = if selected == Some(k) { Tone::Selected } else { Tone::Plain };
        let ghost before = lines_view(lines@);
        let l = row_pieces(&rows[k], &ws, tone);
        lines.push(l);
        proof {
            assert(rv[k as int] == rows@[k as int]@.map_values(|c: String| c@));
            assert(lines_view(lines@) =~= before.push(pieces_view(l@)));
            assert(lines_view(lines@) =~= head + Seq::new(
                (k + 1) as nat,
                |j: int| row_line(rv[j], wv, if selected == Some(j as usize) { Tone::Selected } else { Tone::Plain }),
            ));
        }
        k = k + 1;
    }
    let mut bottom: Vec<Piece> = Vec::new();
    bottom.push(Piece { text: rule_string(&ws, '└', '┴', '┘'), tone: Tone::Border });
    proof {
        assert(pieces_view(bottom@) =~= seq![PieceView { text: rule(wv, '└', '┴', '┘'), tone: Tone::Border }]);
    }
    let ghost body = lines_view(lines@);
    lines.push(bottom);
    let mut count: Vec<Piece> = Vec::new();
    count.push(Piece { text: count_string(rows.len()), tone: Tone::Note });
    proof {
        assert(pieces_view(count@) =~= seq![PieceView { text: count_text(rows@.len() as nat), tone: Tone::Note }]);
    }
    lines.push(count);
    proof {
        assert(lines_view(lines@) =~= table_lines(cv, rv, selected));
    }
    lines
}

/// A table with headings is drawn as its frame (top rule, headings, rule,
/// bottom rule), its count, and one line for each of its first twenty rows.
pub proof fn law_table_line_count(columns: Seq<Seq<char>>, rows: Seq<Seq<Seq<char>>>, selected: Option<usize>)
    requires
        columns.len() > 0,
    ensures
        table_lines(columns, rows, selected).len() == 5 + if rows.len() < MAX_SHOWN_ROWS { rows.len() } else {
            MAX_SHOWN_ROWS as nat
        },
{
}

/// No column is drawn wider than the limit.
pub proof fn law_columns_capped(columns: Seq<Seq<char>>, rows: Seq<Seq<Seq<char>>>, i: int)
    requires
        0 <= i < columns.len(),
    ensures
        column_widths(columns, rows)[i] <= MAX_COLUMN_WIDTH,
{
}

/// The characters of a drawn line, its pieces one after another.
pub open spec fn line_text(ps: Seq<PieceView>) -> Seq<char>
    decreases ps.len(),
{
    if ps.len() == 0 {
        Seq::empty()
    } else {
        line_text(ps.drop_last()) + ps.last().text
    }
}

/// The total of the widths, each two wider.
pub open spec fn spaced_total(ws: Seq<nat>) -> nat
    decreases ws.len(),
{
    if ws.len() == 0 { 0 } else { spaced_total(ws.drop_last()) + ws.last() + 2 }
}

proof fn lemma_line_text_concat(a: Seq<PieceView>, b: Seq<PieceView>)
    ensures
        line_text(a + b) == line_text(a) + line_text(b),
    decreases b.len(),
{
    if b.len() == 0 {
        assert(a + b =~= a);
        assert(line_text(a) + line_text(b) =~= line_text(a));
    } else {
        assert((a + b).drop_last() =~= a + b.drop_last());
        lemma_line_text_concat(a, b.drop_last());
        assert(line_text(a) + line_text(b) =~= line_text(a) + line_text(b.drop_last()) + b.last().text);
    }
}

proof fn lemma_rule_body_len(ws: Seq<nat>, mid: char)
    requires
        ws.len() > 0,
    ensures
        rule_body(ws, mid).len() == spaced_total(ws) + ws.len() - 1,
    decreases ws.len(),
{
    if ws.len() > 1 {
        lemma_rule_body_len(ws.drop_last(), mid);
        assert(repeated('─', ws.last() + 2).len() == ws.last() + 2);
    } else {
        assert(ws.drop_last().len() == 0);
        assert(spaced_total(ws.drop_last()) == 0);
        assert(repeated('─', ws[0] + 2).len() == ws[0] + 2);
    }
}

/// Cells no wider than their columns fill them exactly.
proof fn lemma_cells_len(texts: Seq<Seq<char>>, ws: Seq<nat>, tone: Tone)
    requires
        texts.len() <= ws.len(),
        forall|i: int| 0 <= i < texts.len() ==> texts[i].len() <= #[trigger] ws[i],
    ensures
        line_text(cell_pieces(texts, ws, tone)).len() == spaced_total(ws.take(texts.len() as int)) + texts.len(),
    decreases texts.len(),
{
    if texts.len() > 0 {
        let n = texts.len() - 1;
        lemma_cells_len(texts.drop_last(), ws, tone);
        let cell = PieceView { text: cell_text(texts.last(), ws[n]), tone };
        lemma_line_text_concat(cell_pieces(texts.drop_last(), ws, tone), seq![cell, bar()]);
        assert(seq![cell, bar()].drop_last() =~= seq![cell]);
        assert(seq![cell].drop_last() =~= Seq::<PieceView>::empty());
        assert(line_text(Seq::<PieceView>::empty()) =~= Seq::<char>::empty());
        assert(line_text(seq![cell]) =~= cell.text);
        assert(ws.take(n + 1).drop_last() =~= ws.take(n));
        assert(texts.last() == texts[n]);
    } else {
        assert(ws.take(0).len() == 0);
    }
}

/// A shown cell fits its column.
proof fn lemma_shown_fits(columns: Seq<Seq<char>>, rows: Seq<Seq<Seq<char>>>, k: int, i: int)
    requires
        0 <= i < columns.len(),
        0 <= k < rows.len(),
        i < rows[k].len(),
    ensures
        shown_cell(rows[k][i]).len() <= column_width(columns, rows, i),
{
    let c = rows[k][i];
    lemma_widest_covers(rows, i, utf8_len(columns[i]), k);
    lemma_utf8_len_monotone(c, 0, c.len() as int);
    lemma_utf8_len_full(c);
    reveal_strlit("...");
    if utf8_len(c) > MAX_COLUMN_WIDTH {
        let m = if c.len() < 27 { c.len() as int } else { 27 };
        assert(shown_cell(c).len() == m + 3);
    }
}

/// The widest cell is at least as wide as each cell of the column.
proof fn lemma_widest_covers(rows: Seq<Seq<Seq<char>>>, i: int, init: nat, k: int)
    requires
        0 <= k < rows.len(),
        0 <= i < rows[k].len(),
    ensures
        widest(rows, i, init) >= utf8_len(rows[k][i]),
    decreases rows.len(),
{
    if k < rows.len() - 1 {
        lemma_widest_covers(rows.drop_last(), i, init, k);
        assert(rows.drop_last()[k] == rows[k]);
    }
}

/// Every rule of a table's frame, and every row that has a cell in each
/// column, is equally wide: the cells line up under their headings.
pub proof fn law_table_rows_align(columns: Seq<Seq<char>>, rows: Seq<Seq<Seq<char>>>, selected: Option<usize>, k: int)
    requires
        columns.len() > 0,
        0 <= k < rows.len(),
        k < MAX_SHOWN_ROWS,
        rows[k].len() >= columns.len(),
    ensures
        ({
            let ls = table_lines(columns, rows, selected);
            let top = line_text(ls[0]).len();
            &&& line_text(ls[2]).len() == top
            &&& line_text(ls[3 + k]).len() == top
            &&& line_text(ls[ls.len() - 2]).len() == top
        }),
{
    let ws = column_widths(columns, rows);
    let ls = table_lines(columns, rows, selected);
    let n = columns.len();
    lemma_rule_body_len(ws, '┬');
    lemma_rule_body_len(ws, '┼');
    lemma_rule_body_len(ws, '┴');
    let one = |t: Seq<char>, tone: Tone| seq![PieceView { text: t, tone }];
    assert forall|t: Seq<char>, tone: Tone| line_text(#[trigger] one(t, tone)) == t by {
        assert(one(t, tone).drop_last() =~= Seq::<PieceView>::empty());
        assert(line_text(one(t, tone).drop_last()) + t =~= t);
    }
    assert(ls[0] == one(rule(ws, '┌', '┬', '┐'), Tone::Border));
    assert(ls[2] == one(rule(ws, '├', '┼', '┤'), Tone::Border));
    assert(ls[ls.len() - 2] == one(rule(ws, '└', '┴', '┘'), Tone::Border));
    let row = rows[k];
    let texts = row.take(n as int).map_values(|c: Seq<char>| shown_cell(c));
    assert forall|i: int| 0 <= i < texts.len() implies texts[i].len() <= #[trigger] ws[i] by {
        lemma_shown_fits(columns, rows, k, i);
    }
    lemma_cells_len(texts, ws, if selected == Some(k as usize) { Tone::Selected } else { Tone::Plain });
    assert(ws.take(n as int) =~= ws);
    let tone = if selected == Some(k as usize) { Tone::Selected } else { Tone::Plain };
    assert(ls[3 + k] == row_line(row, ws, tone));
    lemma_line_text_concat(seq![bar()], cell_pieces(texts, ws, tone));
    assert(line_text(seq![bar()]) == seq!['│']) by {
        assert(seq![bar()].drop_last() =~= Seq::<PieceView>::empty());
        assert(line_text(seq![bar()].drop_last()) + seq!['│'] =~= seq!['│']);
    }
}

} // verus!

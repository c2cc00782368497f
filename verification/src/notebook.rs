//! Notebooks: cells of code with descriptions, their outputs, and the
//! plain source form of a notebook (descriptions as block comments).

use vstd::prelude::*;
use crate::blocks::{lemma_newline_at, lines_of, newline_at, strip_cr};
use crate::delimiters::{starts_with, starts_with_chars};
use crate::text::{chars_of, is_space, push_char, string_from_chars, string_from_range, trim, trim_chars};

verus! {

/// What an LLM call was asked and answered, for display.
#[derive(Debug, Clone, Default)]
pub struct LlmDebugOutput {
    pub function_name: String,
    pub return_type: String,
    pub prompt: String,
    pub raw_response: String,
}

/// The output of a cell.
#[derive(Debug, Clone)]
pub enum CellOutput {
    /// No output (a null result).
    Empty,
    /// Plain text.
    Text(String),
    /// A table with headers and rows.
    Table { headers: Vec<String>, rows: Vec<Vec<String>> },
}

/// The answer to evaluating a cell.
#[derive(Debug, Clone)]
pub struct EvalResponse {
    pub output: CellOutput,
    pub llm_debug: Option<LlmDebugOutput>,
    pub execution_time_ms: u64,
}

/// How a cell is shown: sizes, folding and level in the outline.
#[derive(Debug, Clone, Default)]
pub struct CellUiState {
    pub editor_height: Option<u32>,
    pub banner_height: Option<u32>,
    pub editor_collapsed: Option<bool>,
    pub output_collapsed: Option<bool>,
    pub editor_view_state: Option<String>,
    pub level: Option<u32>,
    pub collapsed: Option<bool>,
}

/// A cell of a notebook.
#[derive(Debug, Clone)]
pub struct NotebookCell {
    pub id: String,
    pub code: String,
    pub description: String,
    pub output: Option<CellOutput>,
    pub llm_debug: Option<LlmDebugOutput>,
    pub ui_state: Option<CellUiState>,
}

/// A notebook file.
#[derive(Debug, Clone)]
pub struct Notebook {
    pub version: String,
    pub created_at: String,
    pub modified_at: String,
    pub cells: Vec<NotebookCell>,
}

/// The source form of one cell: its description as a block comment on a
/// line of its own, if it has one, then its code.
pub open spec fn cell_source(description: Seq<char>, code: Seq<char>) -> Seq<char> {
    if description.len() > 0 { "/* "@ + description + " */\n"@ + code } else { code }
}

/// The source form of cells, separated by a blank line.
pub open spec fn cells_source(cells: Seq<NotebookCell>) -> Seq<char>
    decreases cells.len(),
{
    if cells.len() == 0 {
        Seq::empty()
    } else if cells.len() == 1 {
        cell_source(cells[0].description@, cells[0].code@)
    } else {
        cells_source(cells.drop_last()) + "\n\n"@ + cell_source(cells.last().description@, cells.last().code@)
    }
}

/// Writes cells as plain source: descriptions become block comments, cells
/// are separated by blank lines.
pub fn export_source(cells: &Vec<NotebookCell>) -> (r: String)
    ensures
        r@ == cells_source(cells@),
{
    let mut out = String::new();
    let mut i: usize = 0;
    proof {
        assert(out@ =~= cells_source(cells@.take(0)));
    }
    while i < cells.len()
        invariant
            i <= cells@.len(),
            out@ == cells_source(cells@.take(i as int)),
        decreases cells@.len() - i,
    {
        let ghost before = out@;
        if i > 0 {
            out.append("\n\n");
        }
        let cell = &cells[i];
        if cell.description.as_str().unicode_len() > 0 {
            out.append("/* ");
            out.append(cell.description.as_str());
            out.append(" */\n");
        }
        out.append(cell.code.as_str());
        proof {
            let t = cells@.take(i + 1);
            assert(t.drop_last() =~= cells@.take(i as int));
            assert(t.last() == cells@[i as int]);
            if i > 0 {
                assert(out@ =~= before + "\n\n"@ + cell_source(cell.description@, cell.code@));
            } else {
                assert(out@ =~= before + cell_source(cell.description@, cell.code@));
                assert(before.len() == 0);
            }
        }
        i = i + 1;
    }
    proof {
        assert(cells@.take(cells@.len() as int) =~= cells@);
    }
    out
}

/// The first position at or after `from` where `*/` starts in `s`.
pub open spec fn comment_end(s: Seq<char>, from: int) -> Option<int>
    decreases s.len() - from,
{
    if from < 0 || from + 1 >= s.len() {
        None
    } else if s[from] == '*' && s[from + 1] == '/' {
        Some(from)
    } else {
        comment_end(s, from + 1)
    }
}

proof fn lemma_comment_end(s: Seq<char>, from: int)
    requires
        0 <= from,
    ensures
        comment_end(s, from) matches Some(e) ==> from <= e && e + 1 < s.len(),
    decreases s.len() - from,
{
    if from + 1 < s.len() && !(s[from] == '*' && s[from + 1] == '/') {
        lemma_comment_end(s, from + 1);
    }
}

/// `acc` with `x` added on a new line (on the first line if `acc` is
/// empty).
pub open spec fn append_line(acc: Seq<char>, x: Seq<char>) -> Seq<char> {
    if acc.len() > 0 { acc + seq!['\n'] + x } else { x }
}

/// What reading a source file into cells has gathered: the cells finished
/// (each a description and its code), the description and code of the cell
/// being read, and whether a block comment is open.
pub struct ImportState {
    pub cells: Seq<(Seq<char>, Seq<char>)>,
    pub description: Seq<char>,
    pub code: Seq<char>,
    pub in_comment: bool,
}

/// The cell being read finished, when it has code: it joins the finished
/// cells, with its code trimmed, and a new cell begins.
pub open spec fn close_cell(st: ImportState) -> ImportState {
    if trim(st.code).len() > 0 {
        ImportState {
            cells: st.cells.push((st.description, trim(st.code))),
            description: Seq::empty(),
            code: Seq::empty(),
            ..st
        }
    } else {
        st
    }
}

/// One line of a source file: a block comment opening on a line starts a
/// new cell once the cell being read has code, and gives the description
/// (replacing one without code); lines inside a comment are added to it,
/// and other lines are code.
pub open spec fn import_line(st: ImportState, line: Seq<char>) -> ImportState {
    let t = trim(line);
    if starts_with(t, "/*"@) {
        let after = t.skip(2);
        let st0 = close_cell(st);
        match comment_end(after, 0) {
            Some(e) => ImportState { description: trim(after.take(e)), in_comment: false, ..st0 },
            None => ImportState { description: trim(after), in_comment: true, ..st0 },
        }
    } else if st.in_comment {
        match comment_end(t, 0) {
            Some(e) => {
                let b = trim(t.take(e));
                let d = if b.len() > 0 { append_line(st.description, b) } else { st.description };
                ImportState { description: d, in_comment: false, ..st }
            },
            None => ImportState { description: append_line(st.description, t), ..st },
        }
    } else {
        ImportState { code: append_line(st.code, line), ..st }
    }
}

pub open spec fn import_fold(st: ImportState, ls: Seq<Seq<char>>) -> ImportState
    decreases ls.len(),
{
    if ls.len() == 0 {
        st
    } else {
        import_fold(import_line(st, ls[0]), ls.drop_first())
    }
}

/// The state reading starts in.
pub open spec fn import_start() -> ImportState {
    ImportState { cells: Seq::empty(), description: Seq::empty(), code: Seq::empty(), in_comment: false }
}

/// The cells a source file gives: a new cell at each block comment that
/// follows code, each with its description and its code trimmed; the last
/// one kept when it has code or a description; one empty cell when there
/// is nothing.
pub open spec fn imported_cells(contents: Seq<char>) -> Seq<(Seq<char>, Seq<char>)> {
    let st = import_fold(import_start(), lines_of(contents));
    let last = (st.description, trim(st.code));
    let all = if last.0.len() > 0 || last.1.len() > 0 { st.cells.push(last) } else { st.cells };
    if all.len() == 0 { seq![(Seq::<char>::empty(), Seq::<char>::empty())] } else { all }
}

/// The characters of each description and code.
pub open spec fn pair_views(v: Seq<(String, String)>) -> Seq<(Seq<char>, Seq<char>)> {
    v.map_values(|c: (String, String)| (c.0@, c.1@))
}

/// The first `*/` in `v` at or after `from`.
fn find_comment_end(v: &Vec<char>, from: usize) -> (r: Option<usize>)
    requires
        from <= v@.len(),
    ensures
        r matches Some(e) ==> comment_end(v@, from as int) == Some(e as int),
        r is None ==> comment_end(v@, from as int) is None,
{
    let n = v.len();
    let mut i = from;
    while n > 0 && i < n - 1
        invariant
            from <= i <= n == v@.len(),
            comment_end(v@, from as int) == comment_end(v@, i as int),
        decreases n - i,
    {
        if v[i] == '*' && v[i + 1] == '/' {
            return Some(i);
        }
        i = i + 1;
    }
    None
}

/// `acc` with `x` added on a new line.
fn push_line(acc: &mut String, x: &[char])
    ensures
        final(acc)@ == append_line(old(acc)@, x@),
{
    if acc.as_str().unicode_len() > 0 {
        push_char(acc, '\n');
    }
    let s = string_from_chars(x);
    acc.append(s.as_str());
    proof {
        if old(acc)@.len() > 0 {
            assert(final(acc)@ =~= old(acc)@ + seq!['\n'] + x@);
        } else {
            assert(final(acc)@ =~= x@);
        }
    }
}

/// The line of `v` that starts at `i`, without its line end, and where the
/// next line starts.
fn line_from(v: &Vec<char>, i: usize) -> (r: (Vec<char>, usize))
    requires
        i < v@.len(),
    ensures
        i < r.1 <= v@.len(),
        lines_of(v@.skip(i as int)) == seq![r.0@] + lines_of(v@.skip(r.1 as int)),
{
    let n = v.len();
    let mut j = i;
    while j < n && v[j] != '\n'
        invariant
            i <= j <= n == v@.len(),
            forall|m: int| i <= m < j ==> v@[m] != '\n',
        decreases n - j,
    {
        j = j + 1;
    }
    let ghost s = v@.skip(i as int);
    proof {
        lemma_newline_at(s, 0);
        lemma_newline_from(s, 0, j - i);
        assert(s.take(j - i) =~= v@.subrange(i as int, j as int));
    }
    let end = if j > i && v[j - 1] == '\r' { j - 1 } else { j };
    let mut line: Vec<char> = Vec::new();
    let mut m = i;
    while m < end
        invariant
            i <= m <= end <= j <= n == v@.len(),
            line@ == v@.subrange(i as int, m as int),
        decreases end - m,
    {
        line.push(v[m]);
        proof {
            assert(v@.subrange(i as int, m + 1) =~= v@.subrange(i as int, m as int).push(v@[m as int]));
        }
        m = m + 1;
    }
    let next = if j < n { j + 1 } else { n };
    proof {
        assert(line@ == strip_cr(s.take(j - i)));
        if j < n {
            assert(s.skip(j - i + 1) =~= v@.skip(j + 1));
        } else {
            assert(v@.skip(n as int) =~= Seq::<char>::empty());
        }
    }
    (line, next)
}

/// The line break at or after `from` in `s`, when none comes before
/// `to` and `s[to]` is one (or `to` is the end).
proof fn lemma_newline_from(s: Seq<char>, from: int, to: int)
    requires
        0 <= from <= to <= s.len(),
        forall|m: int| from <= m < to ==> s[m] != '\n',
        to < s.len() ==> s[to] == '\n',
    ensures
        newline_at(s, from) == to,
    decreases to - from,
{
    if from < to {
        lemma_newline_from(s, from + 1, to);
    }
}

/// Reads a source file into cells, as descriptions and code: a block
/// comment gives a cell's description and starts a new cell once the cell
/// being read has code; the other lines are code (trimmed).
pub fn import_source(contents: &str) -> (r: Vec<(String, String)>)
    ensures
        pair_views(r@) == imported_cells(contents@),
{
    let v = chars_of(contents);
    let n = v.len();
    let mut description = String::new();
    let mut code = String::new();
    let mut in_comment = false;
    let mut cells: Vec<(String, String)> = Vec::new();
    let ghost init = import_start();
    let mut i: usize = 0;
    proof {
        assert(v@.skip(0) =~= v@);
        assert(pair_views(cells@) =~= Seq::<(Seq<char>, Seq<char>)>::empty());
    }
    while i < n
        invariant
            i <= n == v@.len(),
            v@ == contents@,
            import_fold(
                ImportState { cells: pair_views(cells@), description: description@, code: code@, in_comment },
                lines_of(v@.skip(i as int)),
            ) == import_fold(init, lines_of(v@)),
        decreases n - i,
    {
        let (line, next) = line_from(&v, i);
        let ghost st = ImportState { cells: pair_views(cells@), description: description@, code: code@, in_comment };
        let line_s = string_from_chars(line.as_slice());
        let t = trim_chars(line_s.as_str());
        proof {
            assert(t@ == trim(line@));
        }
        if starts_with_chars(t.as_slice(), "/*") {
            proof {
                reveal_strlit("/*");
            }
            let tc = trim_chars(code.as_str());
            if tc.len() > 0 {
                let ghost before = cells@;
                let done = (description, string_from_chars(tc.as_slice()));
                cells.push(done);
                description = String::new();
                code = String::new();
                proof {
                    assert(pair_views(cells@) =~= pair_views(before).push((st.description, trim(st.code))));
                }
            }
            proof {
                assert(close_cell(st) == ImportState {
                    cells: pair_views(cells@), description: description@, code: code@, in_comment, });
            }
            let mut after: Vec<char> = Vec::new();
            let mut k: usize = 2;
            while k < t.len()
                invariant
                    2 <= k <= t@.len(),
                    after@ == t@.subrange(2, k as int),
                decreases t@.len() - k,
            {
                after.push(t[k]);
                proof {
                    assert(t@.subrange(2, k + 1) =~= t@.subrange(2, k as int).push(t@[k as int]));
                }
                k = k + 1;
            }
            proof {
                assert(after@ =~= t@.skip(2));
                lemma_comment_end(after@, 0);
            }
            match find_comment_end(&after, 0) {
                Some(e) => {
                    let inner = string_from_range(after.as_slice(), 0, e);
                    let d = trim_chars(inner.as_str());
                    description = string_from_chars(d.as_slice());
                    in_comment = false;
                    proof {
                        assert(inner@ =~= after@.take(e as int));
                    }
                },
                None => {
                    let a = string_from_chars(after.as_slice());
                    let d = trim_chars(a.as_str());
                    description = string_from_chars(d.as_slice());
                    in_comment = true;
                },
            }
        } else if in_comment {
            match find_comment_end(&t, 0) {
                Some(e) => {
                    proof {
                        lemma_comment_end(t@, 0);
                    }
                    let inner = string_from_range(t.as_slice(), 0, e);
                    let b = trim_chars(inner.as_str());
                    proof {
                        assert(inner@ =~= t@.take(e as int));
                    }
                    if b.len() > 0 {
                        push_line(&mut description, b.as_slice());
                    }
                    in_comment = false;
                },
                None => {
                    push_line(&mut description, t.as_slice());
                },
            }
        } else {
            push_line(&mut code, line.as_slice());
        }
        proof {
            let now = ImportState { cells: pair_views(cells@), description: description@, code: code@, in_comment };
            assert(now == import_line(st, line@));
            assert(lines_of(v@.skip(i as int)).drop_first() =~= lines_of(v@.skip(next as int)));
        }
        i = next;
    }
    proof {
        assert(v@.skip(n as int) =~= Seq::<char>::empty());
    }
    let c = trim_chars(code.as_str());
    let ghost fin = ImportState { cells: pair_views(cells@), description: description@, code: code@, in_comment };
    if description.as_str().unicode_len() > 0 || c.len() > 0 {
        let ghost before = cells@;
        cells.push((description, string_from_chars(c.as_slice())));
        proof {
            assert(pair_views(cells@) =~= pair_views(before).push((fin.description, trim(fin.code))));
        }
    }
    if cells.len() == 0 {
        cells.push((String::new(), String::new()));
        proof {
            assert(pair_views(cells@) =~= seq![(Seq::<char>::empty(), Seq::<char>::empty())]);
        }
    }
    cells
}

/// The code lines gathered into `acc`, one after the other.
pub open spec fn gathered(acc: Seq<char>, ls: Seq<Seq<char>>) -> Seq<char>
    decreases ls.len(),
{
    if ls.len() == 0 {
        acc
    } else {
        gathered(append_line(acc, ls[0]), ls.drop_first())
    }
}

/// No line opens a block comment.
pub open spec fn no_comment_lines(ls: Seq<Seq<char>>) -> bool {
    forall|i: int| 0 <= i < ls.len() ==> !#[trigger] starts_with(trim(ls[i]), "/*"@)
}

/// Code lines outside a comment are gathered as code.
proof fn lemma_fold_code(st: ImportState, ls: Seq<Seq<char>>)
    requires
        !st.in_comment,
        no_comment_lines(ls),
    ensures
        import_fold(st, ls) == (ImportState { code: gathered(st.code, ls), ..st }),
    decreases ls.len(),
{
    if ls.len() > 0 {
        assert(!starts_with(trim(ls[0]), "/*"@));
        assert forall|i: int| 0 <= i < ls.drop_first().len() implies !#[trigger] starts_with(trim(ls.drop_first()[i]),
            "/*"@) by {
            assert(ls.drop_first()[i] == ls[i + 1]);
        }
        lemma_fold_code(import_line(st, ls[0]), ls.drop_first());
    }
}

/// Text without `\r` that does not end with a line break, gathered line by
/// line after a non-empty `acc`, is `acc`, a line break and the text.
proof fn lemma_gathered_after(acc: Seq<char>, s: Seq<char>)
    requires
        acc.len() > 0,
        s.len() > 0,
        s.last() != '\n',
        forall|k: int| 0 <= k < s.len() ==> s[k] != '\r',
    ensures
        gathered(acc, lines_of(s)) == acc + seq!['\n'] + s,
    decreases s.len(),
{
    let j = newline_at(s, 0);
    lemma_newline_at(s, 0);
    if j < s.len() {
        let rest = s.skip(j + 1);
        assert(rest.len() > 0);
        assert(rest.last() == s.last());
        let line = s.take(j);
        if j > 0 {
            assert(line.last() == s[j - 1]);
        }
        assert(strip_cr(line) == line);
        let ls = lines_of(s);
        assert(ls == seq![line] + lines_of(rest));
        assert(ls.drop_first() =~= lines_of(rest));
        assert(ls[0] == line);
        assert(gathered(acc, ls) == gathered(append_line(acc, line), lines_of(rest)));
        lemma_gathered_after(acc + seq!['\n'] + line, rest);
        assert(s =~= line + seq!['\n'] + rest);
        assert(acc + seq!['\n'] + line + seq!['\n'] + rest =~= acc + seq!['\n'] + s);
    } else {
        assert(s.take(j) =~= s);
        assert(strip_cr(s) == s);
        assert(lines_of(s) == seq![s] + lines_of(Seq::<char>::empty()));
        assert(lines_of(s) =~= seq![s]);
        assert(seq![s].drop_first() =~= Seq::<Seq<char>>::empty());
        assert(gathered(append_line(acc, s), Seq::<Seq<char>>::empty()) == append_line(acc, s));
        assert(gathered(acc, seq![s]) == gathered(append_line(acc, s), seq![s].drop_first()));
    }
}

/// Text that starts with a character other than a line break, has no
/// `\r` and does not end with a line break is gathered back whole.
proof fn lemma_gathered_whole(s: Seq<char>)
    requires
        s.len() > 0,
        s[0] != '\n',
        s.last() != '\n',
        forall|k: int| 0 <= k < s.len() ==> s[k] != '\r',
    ensures
        gathered(Seq::empty(), lines_of(s)) == s,
{
    let j = newline_at(s, 0);
    lemma_newline_at(s, 0);
    assert(j > 0);
    let line = s.take(j);
    assert(line.last() == s[j - 1]);
    assert(strip_cr(line) == line);
    assert(append_line(Seq::empty(), line) == line);
    if j < s.len() {
        let rest = s.skip(j + 1);
        assert(rest.last() == s.last());
        let ls = lines_of(s);
        assert(ls == seq![line] + lines_of(rest));
        assert(ls.drop_first() =~= lines_of(rest));
        assert(ls[0] == line);
        assert(gathered(Seq::empty(), ls) == gathered(append_line(Seq::empty(), line), lines_of(rest)));
        lemma_gathered_after(line, rest);
        assert(s =~= line + seq!['\n'] + rest);
    } else {
        assert(line =~= s);
        assert(lines_of(s) == seq![s] + lines_of(Seq::<char>::empty()));
        assert(lines_of(s) =~= seq![s]);
        assert(seq![s].drop_first() =~= Seq::<Seq<char>>::empty());
        assert(gathered(s, Seq::<Seq<char>>::empty()) == s);
        assert(gathered(Seq::empty(), seq![s]) == gathered(append_line(Seq::empty(), s), seq![s].drop_first()));
    }
}

/// Trimming text that neither starts nor ends with white space keeps it.
proof fn lemma_trim_keeps(s: Seq<char>)
    requires
        s.len() > 0,
        !is_space(s[0]),
        !is_space(s.last()),
    ensures
        trim(s) == s,
{
}

/// `*/` starts at `k` in `s`.
pub open spec fn closes_at(s: Seq<char>, k: int) -> bool {
    s[k] == '*' && s[k + 1] == '/'
}

/// The first `*/` after `from` is at `e` when none starts before it.
proof fn lemma_comment_end_at(s: Seq<char>, from: int, e: int)
    requires
        0 <= from <= e,
        e + 1 < s.len(),
        closes_at(s, e),
        forall|k: int| from <= k < e ==> !#[trigger] closes_at(s, k),
    ensures
        comment_end(s, from) == Some(e),
    decreases e - from,
{
    if from < e {
        assert(!closes_at(s, from));
        lemma_comment_end_at(s, from + 1, e);
    } else {
        assert(closes_at(s, e));
    }
}

/// With no `*/` from `from` on, none starts at any later `k`.
proof fn lemma_comment_none(s: Seq<char>, from: int, k: int)
    requires
        comment_end(s, from) is None,
        0 <= from <= k,
        k + 1 < s.len(),
    ensures
        !closes_at(s, k),
    decreases k - from,
{
    if from < k {
        lemma_comment_none(s, from + 1, k);
    }
}

/// A description that reads back as it was written: one line, no white
/// space at its ends, no `*/`.
pub open spec fn plain_description(d: Seq<char>) -> bool {
    &&& !is_space(d[0])
    &&& !is_space(d.last())
    &&& forall|k: int| 0 <= k < d.len() ==> d[k] != '\n'
    &&& comment_end(d, 0) is None
}

/// Code that reads back as it was written: not empty, no white space at
/// its ends, no `\r`, and no line that opens a block comment.
pub open spec fn plain_code(c: Seq<char>) -> bool {
    &&& c.len() > 0
    &&& !is_space(c[0])
    &&& !is_space(c.last())
    &&& forall|k: int| 0 <= k < c.len() ==> c[k] != '\r'
    &&& no_comment_lines(lines_of(c))
}

/// The comment line of a description.
pub open spec fn head_line(d: Seq<char>) -> Seq<char> {
    "/* "@ + d + " */"@
}

/// The lines of a cell with a description: its comment line, then its
/// code's lines.
proof fn lemma_cell_lines(d: Seq<char>, c: Seq<char>)
    requires
        d.len() > 0,
        plain_description(d),
    ensures
        lines_of(cell_source(d, c)) == seq![head_line(d)] + lines_of(c),
{
    reveal_strlit("/* ");
    reveal_strlit(" */\n");
    reveal_strlit(" */");
    let head = head_line(d);
    let contents = cell_source(d, c);
    assert(contents =~= head + seq!['\n'] + c);
    assert forall|k: int| 0 <= k < head.len() implies head[k] != '\n' by {
        if 3 <= k < 3 + d.len() {
            assert(head[k] == d[k - 3]);
        }
    }
    lemma_newline_from(contents, 0, head.len() as int);
    assert(contents.take(head.len() as int) =~= head);
    assert(contents.skip(head.len() + 1int) =~= c);
    assert(head.last() == '/');
    assert(strip_cr(head) == head);
}

/// The comment line of a description closes the cell being read (when it
/// has code) and gives the description.
proof fn lemma_head_line(st: ImportState, d: Seq<char>)
    requires
        d.len() > 0,
        plain_description(d),
    ensures
        import_line(st, head_line(d)) == (ImportState { description: d, in_comment: false, ..close_cell(st) }),
{
    reveal_strlit("/* ");
    reveal_strlit(" */");
    reveal_strlit("/*");
    let head = head_line(d);
    assert(!is_space('/'));
    lemma_trim_keeps(head);
    assert(head.take(2) =~= "/*"@);
    assert(starts_with(trim(head), "/*"@));
    let after = head.skip(2);
    let n = d.len() as int;
    assert(after =~= seq![' '] + d + seq![' ', '*', '/']);
    assert forall|k: int| 0 <= k < n + 2 implies !#[trigger] closes_at(after, k) by {
        if 1 <= k < n {
            assert(after[k] == d[k - 1]);
            assert(after[k + 1] == d[k]);
            lemma_comment_none(d, 0, k - 1);
        }
    }
    lemma_comment_end_at(after, 0, n + 2);
    let inner = after.take(n + 2);
    assert(inner =~= seq![' '] + d + seq![' ']);
    assert(is_space(' '));
    assert(crate::text::trim_start(inner) == crate::text::trim_start(d + seq![' '])) by {
        assert(inner.drop_first() =~= d + seq![' ']);
    }
    assert(crate::text::trim_start(d + seq![' ']) == d + seq![' ']) by {
        assert((d + seq![' '])[0] == d[0]);
    }
    assert(crate::text::trim_end(d + seq![' ']) == d) by {
        assert((d + seq![' ']).drop_last() =~= d);
        assert((d + seq![' ']).last() == ' ');
        assert(crate::text::trim_end(d) == d);
    }
    assert(trim(inner) == d);
}

/// Folding over two runs of lines is folding over one, then the other.
proof fn lemma_fold_concat(st: ImportState, a: Seq<Seq<char>>, b: Seq<Seq<char>>)
    ensures
        import_fold(st, a + b) == import_fold(import_fold(st, a), b),
    decreases a.len(),
{
    if a.len() > 0 {
        assert((a + b).drop_first() =~= a.drop_first() + b);
        assert((a + b)[0] == a[0]);
        lemma_fold_concat(import_line(st, a[0]), a.drop_first(), b);
    } else {
        assert(a + b =~= b);
    }
}

/// Lines of text joined by a line break are the lines of each.
proof fn lemma_lines_join(a: Seq<char>, b: Seq<char>)
    requires
        a.len() > 0,
        a.last() != '\n',
    ensures
        lines_of(a + seq!['\n'] + b) == lines_of(a) + lines_of(b),
    decreases a.len(),
{
    let s = a + seq!['\n'] + b;
    let j = newline_at(a, 0);
    lemma_newline_at(a, 0);
    lemma_newline_at(s, 0);
    if j < a.len() {
        assert forall|m: int| 0 <= m < j implies s[m] != '\n' by {
            lemma_newline_before(a, 0, m);
        }
        lemma_newline_from(s, 0, j);
        let rest = a.skip(j + 1);
        assert(rest.len() > 0) by {
            if rest.len() == 0 {
                assert(a.last() == a[j]);
            }
        }
        assert(rest.last() == a.last());
        assert(s.skip(j + 1) =~= rest + seq!['\n'] + b);
        assert(s.take(j) =~= a.take(j));
        lemma_lines_join(rest, b);
        assert(lines_of(a) == seq![strip_cr(a.take(j))] + lines_of(rest));
        assert(lines_of(s) == seq![strip_cr(a.take(j))] + lines_of(rest + seq!['\n'] + b));
        assert(lines_of(s) =~= lines_of(a) + lines_of(b));
    } else {
        assert forall|m: int| 0 <= m < a.len() implies s[m] != '\n' by {
            lemma_newline_before(a, 0, m);
        }
        lemma_newline_from(s, 0, a.len() as int);
        assert(s.take(a.len() as int) =~= a);
        assert(s.skip(a.len() + 1int) =~= b);
        assert(lines_of(a) =~= seq![strip_cr(a)]) by {
            assert(a.take(j) =~= a);
            assert(lines_of(Seq::<char>::empty()) =~= Seq::<Seq<char>>::empty());
        }
        assert(lines_of(s) =~= lines_of(a) + lines_of(b));
    }
}

/// No line break comes before the next one.
proof fn lemma_newline_before(s: Seq<char>, from: int, m: int)
    requires
        0 <= from <= m < newline_at(s, from),
    ensures
        s[m] != '\n',
    decreases m - from,
{
    lemma_newline_at(s, from);
    if from < m {
        lemma_newline_before(s, from + 1, m);
    }
}

/// The description and code of each cell.
pub open spec fn cell_pairs(cells: Seq<NotebookCell>) -> Seq<(Seq<char>, Seq<char>)> {
    cells.map_values(|c: NotebookCell| (c.description@, c.code@))
}

/// Cells that read back as they were written: plain code, plain
/// descriptions, and a description for every cell but the first.
pub open spec fn plain_cells(cells: Seq<NotebookCell>) -> bool {
    forall|k: int| 0 <= k < cells.len() ==> {
        &&& plain_code((#[trigger] cells[k]).code@)
        &&& (cells[k].description@.len() > 0 ==> plain_description(cells[k].description@))
        &&& (k > 0 ==> cells[k].description@.len() > 0)
    }
}

/// Reading exported cells: all but the last are finished, and the last is
/// being read with its description and code.
proof fn lemma_cells_fold(cells: Seq<NotebookCell>)
    requires
        cells.len() > 0,
        plain_cells(cells),
    ensures
        import_fold(import_start(), lines_of(cells_source(cells))) == (ImportState {
            cells: cell_pairs(cells.drop_last()),
            description: cells.last().description@,
            code: cells.last().code@,
            in_comment: false,
        }),
    decreases cells.len(),
{
    let last = cells.last();
    let d = last.description@;
    let c = last.code@;
    assert(last == cells[cells.len() - 1]);
    assert(plain_code(c));
    lemma_gathered_whole(c);
    assert(is_space('\n'));
    if cells.len() == 1 {
        assert(cells_source(cells) == cell_source(d, c));
        if d.len() == 0 {
            assert(d =~= Seq::<char>::empty());
            assert(cell_source(d, c) == c);
            lemma_fold_code(import_start(), lines_of(c));
        } else {
            lemma_cell_lines(d, c);
            lemma_head_line(import_start(), d);
            assert(close_cell(import_start()) == import_start());
            let st1 = import_line(import_start(), head_line(d));
            let ls = seq![head_line(d)] + lines_of(c);
            assert(ls.drop_first() =~= lines_of(c));
            assert(ls[0] == head_line(d));
            assert(import_fold(import_start(), ls) == import_fold(st1, lines_of(c)));
            lemma_fold_code(st1, lines_of(c));
        }
        assert(cell_pairs(cells.drop_last()) =~= Seq::<(Seq<char>, Seq<char>)>::empty());
        let goal = ImportState { cells: cell_pairs(cells.drop_last()), description: d, code: c, in_comment: false };
        assert(import_fold(import_start(), lines_of(cells_source(cells))) == goal);
    } else {
        let prev = cells.drop_last();
        assert(plain_cells(prev)) by {
            assert forall|k: int| 0 <= k < prev.len() implies {
                &&& plain_code((#[trigger] prev[k]).code@)
                &&& (prev[k].description@.len() > 0 ==> plain_description(prev[k].description@))
                &&& (k > 0 ==> prev[k].description@.len() > 0)
            } by {
                assert(prev[k] == cells[k]);
            }
        }
        lemma_cells_fold(prev);
        let p = cells_source(prev);
        let pl = prev.last();
        assert(pl == cells[cells.len() - 2]);
        assert(plain_code(pl.code@));
        lemma_source_ends(prev);
        assert(d.len() > 0);
        let h = cell_source(d, c);
        assert(cells_source(cells) =~= p + seq!['\n'] + (seq!['\n'] + h)) by {
            reveal_strlit("\n\n");
        }
        lemma_lines_join(p, seq!['\n'] + h);
        assert(lines_of(seq!['\n'] + h) == seq![Seq::<char>::empty()] + lines_of(h)) by {
            let s2 = seq!['\n'] + h;
            assert(newline_at(s2, 0) == 0);
            assert(s2.take(0) =~= Seq::<char>::empty());
            assert(s2.skip(1) =~= h);
        }
        lemma_cell_lines(d, c);
        let s0 = import_fold(import_start(), lines_of(p));
        let tail = seq![Seq::<char>::empty()] + (seq![head_line(d)] + lines_of(c));
        lemma_fold_concat(import_start(), lines_of(p), tail);
        assert(lines_of(cells_source(cells)) =~= lines_of(p) + tail);
        // the blank line between the cells
        reveal_strlit("/*");
        assert(trim(Seq::<char>::empty()) =~= Seq::<char>::empty());
        assert(!starts_with(Seq::<char>::empty(), "/*"@));
        let s1 = import_line(s0, Seq::empty());
        assert(s1 == ImportState { code: pl.code@ + seq!['\n'] + Seq::<char>::empty(), ..s0 });
        assert(pl.code@ + seq!['\n'] + Seq::<char>::empty() =~= pl.code@.push('\n'));
        // the comment line of the last cell closes the one before
        assert(trim(pl.code@.push('\n')) == pl.code@) by {
            let x = pl.code@.push('\n');
            assert(x[0] == pl.code@[0]);
            assert(crate::text::trim_start(x) == x);
            assert(x.drop_last() =~= pl.code@);
            lemma_trim_keeps(pl.code@);
            assert(crate::text::trim_start(pl.code@) == pl.code@);
        }
        lemma_head_line(s1, d);
        let s2 = import_line(s1, head_line(d));
        assert(s2.cells =~= cell_pairs(prev.drop_last()).push((pl.description@, pl.code@)));
        assert(cell_pairs(prev.drop_last()).push((pl.description@, pl.code@)) =~= cell_pairs(cells.drop_last()));
        lemma_fold_code(s2, lines_of(c));
        let rest = seq![head_line(d)] + lines_of(c);
        assert(tail.drop_first() =~= rest);
        assert(tail[0] == Seq::<char>::empty());
        assert(rest.drop_first() =~= lines_of(c));
        assert(rest[0] == head_line(d));
        assert(import_fold(s0, tail) == import_fold(s1, rest));
        assert(import_fold(s1, rest) == import_fold(s2, lines_of(c)));
        assert(s2.code.len() == 0);
        assert(gathered(s2.code, lines_of(c)) == c);
        let goal = ImportState { cells: cell_pairs(cells.drop_last()), description: d, code: c, in_comment: false };
        assert(import_fold(s2, lines_of(c)) == goal);
        assert(import_fold(import_start(), lines_of(p) + tail) == goal);
        assert(import_fold(import_start(), lines_of(cells_source(cells))) == goal);
    }
}

/// The source of cells ends as the code of the last one does.
proof fn lemma_source_ends(cells: Seq<NotebookCell>)
    requires
        cells.len() > 0,
        cells.last().code@.len() > 0,
    ensures
        cells_source(cells).len() > 0,
        cells_source(cells).last() == cells.last().code@.last(),
{
    let d = cells.last().description@;
    let c = cells.last().code@;
    reveal_strlit("/* ");
    reveal_strlit(" */\n");
    reveal_strlit("\n\n");
    let h = cell_source(d, c);
    assert(h.len() >= c.len() && h.last() == c.last());
}

/// Exporting cells and reading the file back gives each cell's description
/// and code again: `contents` is what `export_source` writes for the
/// cells. Every cell but the first has a description; descriptions are one
/// line, do not start or end with white space and hold no `*/`; each cell's
/// code is not empty, does not start or end with white space, holds no
/// `\r`, and none of its lines opens a block comment.
pub proof fn law_cells_round_trip(cells: Seq<NotebookCell>, contents: Seq<char>)
    requires
        contents == cells_source(cells),
        cells.len() > 0,
        plain_cells(cells),
    ensures
        imported_cells(contents) == cell_pairs(cells),
{
    lemma_cells_fold(cells);
    let last = cells.last();
    assert(last == cells[cells.len() - 1]);
    lemma_trim_keeps(last.code@);
    assert(cell_pairs(cells.drop_last()).push((last.description@, last.code@)) =~= cell_pairs(cells));
}

} // verus!

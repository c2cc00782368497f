//! The multi-line editor of the workspace: lines of text and a cursor given
//! by a row and a byte column.
//!
//! The column counts bytes of the line's UTF-8 encoding and moves by one
//! byte at a time, as the editor always did; editing at a column that falls
//! inside a multi-byte character is not allowed (the contracts require a
//! character boundary there).

use vstd::prelude::*;
use crate::builtins::{join, joined, string_views};
use crate::repl::{lemma_cursor_unique, remove_at, cursor_chars, with_char, without_char, App};
use crate::text::{
    byte_len, char_index_at, char_width, chars_of, is_boundary, lemma_utf8_len_full, string_from_chars,
    string_from_range, utf8_len,
};

verus! {

/// The characters of each line.
pub open spec fn line_texts(v: Seq<String>) -> Seq<Seq<char>> {
    v.map_values(|s: String| s@)
}

/// The lines and row once the editor has made sure that the cursor's row
/// exists: an empty editor gets one empty line and the first row, and a
/// row just past the end gets a new empty line.
pub open spec fn ensured_rows(lines: Seq<Seq<char>>, row: int) -> (Seq<Seq<char>>, int) {
    let (l1, r1) = if lines.len() == 0 { (seq![Seq::<char>::empty()], 0int) } else { (lines, row) };
    if r1 >= l1.len() { (l1.push(Seq::empty()), r1) } else { (l1, r1) }
}

/// `a` or `b`, whichever is smaller.
pub open spec fn min_of(a: int, b: int) -> int {
    if a <= b { a } else { b }
}

/// `s` with `c` inserted at character index `k`, as a vector.
fn insert_at(v: &Vec<char>, k: usize, c: char) -> (r: Vec<char>)
    requires
        k <= v@.len(),
    ensures
        r@ == with_char(v@, k as int, c),
{
    let mut r: Vec<char> = Vec::new();
    let mut i: usize = 0;
    while i < k
        invariant
            i <= k <= v@.len(),
            r@ == v@.take(i as int),
        decreases k - i,
    {
        r.push(v[i]);
        proof {
            assert(v@.take(i + 1) =~= v@.take(i as int).push(v@[i as int]));
        }
        i = i + 1;
    }
    r.push(c);
    while i < v.len()
        invariant
            k <= i <= v@.len(),
            r@ == v@.take(k as int) + seq![c] + v@.subrange(k as int, i as int),
        decreases v@.len() - i,
    {
        r.push(v[i]);
        proof {
            assert(v@.subrange(k as int, i + 1) =~= v@.subrange(k as int, i as int).push(v@[i as int]));
        }
        i = i + 1;
    }
    proof {
        assert(v@.subrange(k as int, v@.len() as int) =~= v@.skip(k as int));
    }
    r
}

impl App {
    /// Inserts `c` at the cursor and moves the cursor one byte to the
    /// right. The cursor's row is made to exist first, and a column past
    /// the end of the line is moved to its end.
    pub fn editor_insert_char(&mut self, c: char)
        requires
            old(self).editor_lines@.len() == 0 || old(self).editor_cursor_row <= old(self).editor_lines@.len(),
            ({
                let (ls, r) = ensured_rows(line_texts(old(self).editor_lines@), old(self).editor_cursor_row as int);
                let col = if old(self).editor_lines@.len() == 0 { 0 } else {
                    min_of(old(self).editor_cursor_col as int, utf8_len(ls[r]) as int) };
                &&& is_boundary(ls[r], col)
                &&& utf8_len(ls[r]) + char_width(c) <= usize::MAX
            }),
        ensures
            ({
                let (ls, r) = ensured_rows(line_texts(old(self).editor_lines@), old(self).editor_cursor_row as int);
                let col = if old(self).editor_lines@.len() == 0 { 0 } else {
                    min_of(old(self).editor_cursor_col as int, utf8_len(ls[r]) as int) };
                &&& line_texts(final(self).editor_lines@) == ls.update(r, with_char(ls[r], cursor_chars(ls[r], col), c))
                &&& final(self).editor_cursor_row == r
                &&& final(self).editor_cursor_col == col + 1
            }),
            final(self).input == old(self).input,
            final(self).cursor_position == old(self).cursor_position,
    {
        let ghost ls0 = line_texts(self.editor_lines@);
        if self.editor_lines.len() == 0 {
            self.editor_lines.push(String::new());
            self.editor_cursor_row = 0;
            self.editor_cursor_col = 0;
            proof {
                assert(line_texts(self.editor_lines@) =~= seq![Seq::<char>::empty()]);
            }
        }
        if self.editor_cursor_row >= self.editor_lines.len() {
            let ghost before = self.editor_lines@;
            self.editor_lines.push(String::new());
            proof {
                assert(line_texts(self.editor_lines@) =~= line_texts(before).push(Seq::<char>::empty()));
            }
        }
        let row = self.editor_cursor_row;
        let line_len = byte_len(self.editor_lines[row].as_str());
        if self.editor_cursor_col > line_len {
            self.editor_cursor_col = line_len;
        }
        let col = self.editor_cursor_col;
        let chars = chars_of(self.editor_lines[row].as_str());
        proof {
            assert(line_texts(self.editor_lines@)[row as int] == chars@);
        }
        let k = char_index_at(&chars, col);
        proof {
            lemma_cursor_unique(chars@, col as int, k as int);
        }
        let v = insert_at(&chars, k, c);
        let ghost before = self.editor_lines@;
        self.editor_lines.set(row, string_from_chars(v.as_slice()));
        proof {
            assert(line_texts(self.editor_lines@) =~= line_texts(before).update(row as int, v@));
        }
        self.editor_cursor_col = col + 1;
    }

    /// Breaks the line at the cursor: the rest of the line becomes a new
    /// line below, and the cursor goes to its start. With the cursor below
    /// the last line, an empty line is added.
    pub fn editor_insert_newline(&mut self)
        requires
            old(self).editor_cursor_row < old(self).editor_lines@.len() ==> {
                let line = old(self).editor_lines@[old(self).editor_cursor_row as int]@;
                &&& old(self).editor_cursor_col <= utf8_len(line)
                &&& is_boundary(line, old(self).editor_cursor_col as int)
            },
            old(self).editor_cursor_row < usize::MAX,
        ensures
            ({
                let ls = line_texts(old(self).editor_lines@);
                let row = old(self).editor_cursor_row as int;
                if row >= ls.len() {
                    line_texts(final(self).editor_lines@) == ls.push(Seq::empty())
                } else {
                    let k = cursor_chars(ls[row], old(self).editor_cursor_col as int);
                    line_texts(final(self).editor_lines@) == ls.update(row, ls[row].take(k)).insert(row + 1, ls[row].skip(k))
                }
            }),
            final(self).editor_cursor_row == old(self).editor_cursor_row + 1,
            final(self).editor_cursor_col == 0,
    {
        let row = self.editor_cursor_row;
        if row >= self.editor_lines.len() {
            let ghost before = self.editor_lines@;
            self.editor_lines.push(String::new());
            proof {
                assert(line_texts(self.editor_lines@) =~= line_texts(before).push(Seq::<char>::empty()));
            }
            self.editor_cursor_row = row + 1;
            self.editor_cursor_col = 0;
            return;
        }
        let chars = chars_of(self.editor_lines[row].as_str());
        let col = self.editor_cursor_col;
        let k = char_index_at(&chars, col);
        proof {
            lemma_cursor_unique(chars@, col as int, k as int);
        }
        let head = string_from_range(chars.as_slice(), 0, k);
        let tail = string_from_range(chars.as_slice(), k, chars.len());
        let ghost before = self.editor_lines@;
        self.editor_lines.set(row, head);
        self.editor_lines.insert(row + 1, tail);
        proof {
            assert(chars@.subrange(0, k as int) =~= chars@.take(k as int));
            assert(chars@.subrange(k as int, chars@.len() as int) =~= chars@.skip(k as int));
            assert(line_texts(self.editor_lines@) =~= line_texts(before).update(row as int, chars@.take(k as int))
                .insert(row + 1, chars@.skip(k as int)));
        }
        self.editor_cursor_row = row + 1;
        self.editor_cursor_col = 0;
    }

    /// Deletes the character that starts one byte before the cursor, or, at
    /// the start of a line, joins the line to the one above.
    pub fn editor_delete_char(&mut self)
        requires
            old(self).editor_cursor_col > 0 ==> {
                &&& old(self).editor_cursor_row < old(self).editor_lines@.len()
                &&& old(self).editor_cursor_col - 1 < utf8_len(old(self).editor_lines@[old(self).editor_cursor_row as int]@)
                &&& is_boundary(old(self).editor_lines@[old(self).editor_cursor_row as int]@,
                    old(self).editor_cursor_col - 1)
            },
            old(self).editor_cursor_col == 0 && old(self).editor_cursor_row > 0 ==> {
                &&& old(self).editor_cursor_row < old(self).editor_lines@.len()
                &&& utf8_len(old(self).editor_lines@[old(self).editor_cursor_row - 1]@) <= usize::MAX
            },
        ensures
            ({
                let ls = line_texts(old(self).editor_lines@);
                let row = old(self).editor_cursor_row as int;
                let col = old(self).editor_cursor_col as int;
                if col > 0 {
                    &&& line_texts(final(self).editor_lines@) == ls.update(row, without_char(ls[row], cursor_chars(ls[row], col - 1)))
                    &&& final(self).editor_cursor_row == row
                    &&& final(self).editor_cursor_col == col - 1
                } else if row > 0 {
                    &&& line_texts(final(self).editor_lines@) == ls.remove(row).update(row - 1, ls[row - 1] + ls[row])
                    &&& final(self).editor_cursor_row == row - 1
                    &&& final(self).editor_cursor_col == utf8_len(ls[row - 1])
                } else {
                    &&& line_texts(final(self).editor_lines@) == ls
                    &&& final(self).editor_cursor_row == row
                    &&& final(self).editor_cursor_col == col
                }
            }),
    {
        let row = self.editor_cursor_row;
        let col = self.editor_cursor_col;
        if col > 0 {
            let chars = chars_of(self.editor_lines[row].as_str());
            let k = char_index_at(&chars, col - 1);
            proof {
                lemma_cursor_unique(chars@, col - 1, k as int);
                if k == chars@.len() {
                    lemma_utf8_len_full(chars@);
                }
            }
            let v = remove_at(&chars, k);
            let ghost before = self.editor_lines@;
            self.editor_lines.set(row, string_from_chars(v.as_slice()));
            proof {
                assert(line_texts(self.editor_lines@) =~= line_texts(before).update(row as int, v@));
            }
            self.editor_cursor_col = col - 1;
        } else if row > 0 {
            let ghost before = self.editor_lines@;
            let current = self.editor_lines.remove(row);
            let above = row - 1;
            let n = byte_len(self.editor_lines[above].as_str());
            let mut joined_line = self.editor_lines[above].clone();
            joined_line.append(current.as_str());
            self.editor_lines.set(above, joined_line);
            proof {
                assert(line_texts(self.editor_lines@) =~= line_texts(before).remove(row as int).update(above as int,
                    before[above as int]@ + before[row as int]@));
            }
            self.editor_cursor_row = above;
            self.editor_cursor_col = n;
        }
    }

    /// Moves the cursor one byte left, or to the end of the line above.
    pub fn editor_move_left(&mut self)
        requires
            old(self).editor_cursor_col == 0 && old(self).editor_cursor_row > 0 ==> old(self).editor_cursor_row - 1
                < old(self).editor_lines@.len(),
        ensures
            final(self).editor_lines == old(self).editor_lines,
            old(self).editor_cursor_col > 0 ==> final(self).editor_cursor_col == old(self).editor_cursor_col - 1
                && final(self).editor_cursor_row == old(self).editor_cursor_row,
            old(self).editor_cursor_col == 0 && old(self).editor_cursor_row > 0 ==> final(self).editor_cursor_row
                == old(self).editor_cursor_row - 1 && final(self).editor_cursor_col == utf8_len(
                old(self).editor_lines@[old(self).editor_cursor_row - 1]@),
            old(self).editor_cursor_col == 0 && old(self).editor_cursor_row == 0 ==> final(self).editor_cursor_col == 0
                && final(self).editor_cursor_row == 0,
    {
        if self.editor_cursor_col > 0 {
            self.editor_cursor_col = self.editor_cursor_col - 1;
        } else if self.editor_cursor_row > 0 {
            self.editor_cursor_row = self.editor_cursor_row - 1;
            self.editor_cursor_col = byte_len(self.editor_lines[self.editor_cursor_row].as_str());
        }
    }

    /// Moves the cursor one byte right, or to the start of the line below.
    pub fn editor_move_right(&mut self)
        requires
            old(self).editor_cursor_row < old(self).editor_lines@.len(),
        ensures
            final(self).editor_lines == old(self).editor_lines,
            ({
                let line = old(self).editor_lines@[old(self).editor_cursor_row as int]@;
                if old(self).editor_cursor_col < utf8_len(line) {
                    final(self).editor_cursor_col == old(self).editor_cursor_col + 1
                        && final(self).editor_cursor_row == old(self).editor_cursor_row
                } else if old(self).editor_cursor_row < old(self).editor_lines@.len() - 1 {
                    final(self).editor_cursor_row == old(self).editor_cursor_row + 1 && final(self).editor_cursor_col == 0
                } else {
                    final(self).editor_cursor_row == old(self).editor_cursor_row
                        && final(self).editor_cursor_col == old(self).editor_cursor_col
                }
            }),
    {
        let n = byte_len(self.editor_lines[self.editor_cursor_row].as_str());
        if self.editor_cursor_col < n {
            self.editor_cursor_col = self.editor_cursor_col + 1;
        } else if self.editor_cursor_row < self.editor_lines.len() - 1 {
            self.editor_cursor_row = self.editor_cursor_row + 1;
            self.editor_cursor_col = 0;
        }
    }

    /// Moves the cursor one line up, keeping the column where the line is
    /// long enough.
    pub fn editor_move_up(&mut self)
        requires
            old(self).editor_cursor_row > 0 ==> old(self).editor_cursor_row - 1 < old(self).editor_lines@.len(),
        ensures
            final(self).editor_lines == old(self).editor_lines,
            old(self).editor_cursor_row > 0 ==> final(self).editor_cursor_row == old(self).editor_cursor_row - 1
                && final(self).editor_cursor_col == min_of(old(self).editor_cursor_col as int, utf8_len(
                old(self).editor_lines@[old(self).editor_cursor_row - 1]@) as int),
            old(self).editor_cursor_row == 0 ==> final(self).editor_cursor_row == 0
                && final(self).editor_cursor_col == old(self).editor_cursor_col,
    {
        if self.editor_cursor_row > 0 {
            self.editor_cursor_row = self.editor_cursor_row - 1;
            let n = byte_len(self.editor_lines[self.editor_cursor_row].as_str());
            if self.editor_cursor_col > n {
                self.editor_cursor_col = n;
            }
        }
    }

    /// Moves the cursor one line down, keeping the column where the line is
    /// long enough.
    pub fn editor_move_down(&mut self)
        requires
            old(self).editor_lines@.len() > 0,
        ensures
            final(self).editor_lines == old(self).editor_lines,
            old(self).editor_cursor_row < old(self).editor_lines@.len() - 1 ==> final(self).editor_cursor_row
                == old(self).editor_cursor_row + 1 && final(self).editor_cursor_col == min_of(
                old(self).editor_cursor_col as int, utf8_len(old(self).editor_lines@[old(self).editor_cursor_row + 1]@) as int),
            old(self).editor_cursor_row >= old(self).editor_lines@.len() - 1 ==> final(self).editor_cursor_row
                == old(self).editor_cursor_row && final(self).editor_cursor_col == old(self).editor_cursor_col,
    {
        if self.editor_cursor_row < self.editor_lines.len() - 1 {
            self.editor_cursor_row = self.editor_cursor_row + 1;
            let n = byte_len(self.editor_lines[self.editor_cursor_row].as_str());
            if self.editor_cursor_col > n {
                self.editor_cursor_col = n;
            }
        }
    }

    /// The editor's text: its lines joined by line breaks.
    pub fn editor_get_content(&self) -> (r: String)
        ensures
            r@ == joined(line_texts(self.editor_lines@), "\n"@),
    {
        let mut copy: Vec<String> = Vec::new();
        let mut i: usize = 0;
        while i < self.editor_lines.len()
            invariant
                i <= self.editor_lines@.len(),
                string_views(copy@) == line_texts(self.editor_lines@).take(i as int),
            decreases self.editor_lines@.len() - i,
        {
            let ghost before = copy@;
            copy.push(self.editor_lines[i].clone());
            proof {
                assert(string_views(copy@) =~= string_views(before).push(self.editor_lines@[i as int]@));
                assert(line_texts(self.editor_lines@).take(i + 1) =~= line_texts(self.editor_lines@).take(i as int).push(
                    self.editor_lines@[i as int]@));
            }
            i = i + 1;
        }
        proof {
            assert(line_texts(self.editor_lines@).take(self.editor_lines@.len() as int) =~= line_texts(self.editor_lines@));
        }
        join(copy, "\n")
    }
}

/// Backspace right after typing a character in the editor gives back the
/// lines: typing at a boundary column `col` puts the character at byte
/// `col` of the line and the cursor one byte further, and backspace there
/// deletes the character starting at byte `col`.
pub proof fn law_editor_backspace_undoes_typing(ls: Seq<Seq<char>>, row: int, col: int, c: char)
    requires
        0 <= row < ls.len(),
        0 <= col <= utf8_len(ls[row]),
        is_boundary(ls[row], col),
    ensures
        ({
            let k = cursor_chars(ls[row], col);
            let typed = ls.update(row, with_char(ls[row], k, c));
            &&& is_boundary(typed[row], col)
            &&& cursor_chars(typed[row], col) == k
            &&& typed.update(row, without_char(typed[row], cursor_chars(typed[row], col))) == ls
        }),
{
    let line = ls[row];
    let k = cursor_chars(line, col);
    let t = with_char(line, k, c);
    assert(t.take(k) =~= line.take(k));
    lemma_cursor_unique(t, col, k);
    assert(without_char(t, k) =~= line);
    assert(ls.update(row, t).update(row, line) =~= ls);
}

} // verus!

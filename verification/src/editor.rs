//! The editor window: a piece table, the line index that goes with it,
//! a cursor, and the file that is read line by line as the cursor needs
//! it.

use vstd::prelude::*;
use vstd::slice::slice_subrange;
use vstd::utf8::encode_utf8;
use crate::error::Error;
use crate::piece_table::PieceTable;
use crate::editor_model::EditorModel;
use crate::lines::{
    NEWLINE, find_line_end, lemma_line_end_of_rest, lemma_line_start_monotone, line_lengths,
    line_lengths_of, line_start,
};
use crate::editor_laws::{
    lemma_add_text, lemma_at_col, lemma_at_row, lemma_delete_all, lemma_load_enough,
    lemma_load_keeps_cursor, lemma_load_one, lemma_next_line, lemma_positions_in_order,
    lemma_wf_lines, lemma_without,
};

verus! {

/// The lengths of a line index as integers.
pub open spec fn as_ints(lengths: Seq<usize>) -> Seq<int> {
    lengths.map_values(|n: usize| n as int)
}

/// Puts the lines of a text into a line index: row `r` (counted from 0)
/// is cut behind its first `c` bytes, the first line of the text
/// continues its left part, and its right part continues the last line of
/// the text.
fn insert_line_lengths(lines: &mut Vec<usize>, r: usize, c: usize, text_lines: &Vec<usize>)
    requires
        r < old(lines)@.len(),
        c <= old(lines)@[r as int],
        text_lines@.len() >= 1,
        EditorModel::lines_with(
            as_ints(old(lines)@),
            r as int,
            c as int,
            as_ints(text_lines@),
        ).len() <= usize::MAX,
        forall|i: int|
            0 <= i < EditorModel::lines_with(
                as_ints(old(lines)@),
                r as int,
                c as int,
                as_ints(text_lines@),
            ).len() ==> #[trigger] EditorModel::lines_with(
                as_ints(old(lines)@),
                r as int,
                c as int,
                as_ints(text_lines@),
            )[i] <= usize::MAX,
    ensures
        as_ints(final(lines)@) == EditorModel::lines_with(
            as_ints(old(lines)@),
            r as int,
            c as int,
            as_ints(text_lines@),
        ),
{
    let ghost before = as_ints(lines@);
    let ghost t = as_ints(text_lines@);
    let ghost want = EditorModel::lines_with(before, r as int, c as int, t);
    let k: usize = text_lines.len();
    let rest: usize = lines[r] - c;
    proof {
        assert(want.len() == before.len() + k - 1);
        assert(before[r as int] == lines@[r as int]);
        assert(t[0] == text_lines@[0]);
        assert(t[k - 1] == text_lines@[k - 1]);
    }
    if k == 1 {
        proof {
            assert(want[r as int] == c + t[0] + rest);
        }
        lines[r] = c + text_lines[0] + rest;
        proof {
            assert(as_ints(lines@) =~= want);
        }
    } else {
        proof {
            assert(want[r as int] == c + t[0]);
            assert(want[r + k - 1] == t[k - 1] + rest);
        }
        lines[r] = c + text_lines[0];
        let mut j: usize = 1;
        while j < k - 1
            invariant
                1 <= j <= k - 1,
                k == text_lines@.len(),
                r < before.len(),
                t == as_ints(text_lines@),
                want == EditorModel::lines_with(before, r as int, c as int, t),
                want.len() == before.len() + k - 1,
                want.len() <= usize::MAX,
                lines@.len() == before.len() + j - 1,
                forall|i: int| 0 <= i < r + j ==> #[trigger] lines@[i] == want[i],
                forall|i: int|
                    r + j <= i < lines@.len() ==> #[trigger] lines@[i] == before[i - j + 1],
            decreases k - j,
        {
            proof {
                assert(want[r + j] == t[j as int]);
                assert(t[j as int] == text_lines@[j as int]);
            }
            lines.insert(r + j, text_lines[j]);
            j = j + 1;
        }
        lines.insert(r + k - 1, text_lines[k - 1] + rest);
        proof {
            assert forall|i: int| 0 <= i < want.len() implies as_ints(lines@)[i] == want[i] by {
                if i >= r + k {
                    assert(lines@[i] == before[i - k + 1]);
                    assert(want[i] == before[i - k + 1]);
                }
            }
            assert(as_ints(lines@) =~= want);
        }
    }
}

/// Makes one row of the rows `first` to `last` (counted from 0) of a
/// line index: a row of `merged` bytes.
fn merge_rows(lines: &mut Vec<usize>, first: usize, last: usize, merged: usize)
    requires
        first <= last < old(lines)@.len(),
    ensures
        final(lines)@ == old(lines)@.take(first as int) + seq![merged] + old(lines)@.skip(last + 1),
{
    lines[first] = merged;
    let mut gone: usize = 0;
    while gone < last - first
        invariant
            first <= last < old(lines)@.len(),
            gone <= last - first,
            lines@ == old(lines)@.take(first as int) + seq![merged] + old(lines)@.skip(
                first + 1 + gone,
            ),
        decreases last - first - gone,
    {
        lines.remove(first + 1);
        gone = gone + 1;
        proof {
            assert(lines@ =~= old(lines)@.take(first as int) + seq![merged] + old(lines)@.skip(
                first + 1 + gone,
            ));
        }
    }
}

/// The byte `/`, which ends the path of a directory.
pub const SLASH: u8 = 47;

/// Whether the file at a path is to be read, from what the path is and
/// what is there: a file is read; no path, and a path with nothing
/// there, stand for an empty file; a directory, and a path that ends with
/// `/`, cannot be edited.
pub open spec fn wants_source(path: Seq<u8>, is_file: bool, is_dir: bool) -> Result<bool, Error> {
    if path.len() == 0 {
        Ok(false)
    } else if is_file {
        Ok(true)
    } else if is_dir || path.last() == SLASH {
        Err(Error::UnsupportedTarget)
    } else {
        Ok(false)
    }
}

/// Decides whether the file at `file_path` is to be read before a
/// window on it is opened, from whether a file is there (`is_file`) or a
/// directory (`is_dir`). `Ok(false)` says that the window opens on an
/// empty file; a directory fails with [`Error::UnsupportedTarget`].
pub fn source_wanted(file_path: &str, is_file: bool, is_dir: bool) -> (wanted: Result<bool, Error>)
    ensures
        wanted == wants_source(encode_utf8(file_path@), is_file, is_dir),
{
    let path = file_path.as_bytes();
    if path.len() == 0 {
        Ok(false)
    } else if is_file {
        Ok(true)
    } else if is_dir || path[path.len() - 1] == SLASH {
        Err(Error::UnsupportedTarget)
    } else {
        Ok(false)
    }
}

/// An editor window.
pub struct Editor {
    /// The piece table.
    piece_table: PieceTable,
    /// Document offset of the cursor.
    pt_index: usize,
    /// Path of the file being edited; empty where none was given.
    file_path: String,
    /// The bytes of the file.
    source: Vec<u8>,
    /// How many bytes of the file have been read into the piece table.
    source_pos: usize,
    /// Whether a read has found the file at its end.
    eof_reached: bool,
    /// Whether the last row has its newline in the document.
    ends_with_newline: bool,
    /// The length of every row, without its newline.
    lines: Vec<usize>,
    /// Row of the cursor, counted from 1.
    row: usize,
    /// Column of the cursor, counted from 1.
    col: usize,
    /// The column that vertical motions try to reach.
    col_want: usize,
}

impl View for Editor {
    type V = EditorModel;

    closed spec fn view(&self) -> EditorModel {
        EditorModel {
            table: self.piece_table@,
            lines: as_ints(self.lines@),
            row: self.row as int,
            col: self.col as int,
            col_want: self.col_want as int,
            byte_index: self.pt_index as int,
            pending: self.source@.skip(self.source_pos as int),
            eof: self.eof_reached,
            terminated: self.ends_with_newline,
        }
    }
}

impl Editor {
    /// The fields agree with each other.
    pub closed spec fn consistent(&self) -> bool {
        &&& self.piece_table.wf()
        &&& self.source_pos <= self.source@.len()
    }

    /// The window is one that the operations can work on.
    pub open spec fn wf(&self) -> bool {
        &&& self.consistent()
        &&& self@.wf()
    }

    /// The path of the file being edited.
    pub closed spec fn path(&self) -> Seq<char> {
        self.file_path@
    }

    /// A window on the file at `file_path` whose bytes are `source`, with
    /// the first line read. A file that does not exist yet is an empty
    /// one.
    pub fn new(file_path: String, source: Vec<u8>) -> (editor: Editor)
        requires
            source@.len() < usize::MAX - 1,
        ensures
            editor.wf(),
            editor@ == EditorModel::open(source@),
            editor.path() == file_path@,
    {
        let mut lines: Vec<usize> = Vec::new();
        lines.push(0);
        let mut editor = Editor {
            piece_table: PieceTable::new(),
            pt_index: 0,
            file_path,
            source,
            source_pos: 0,
            eof_reached: false,
            ends_with_newline: false,
            lines,
            row: 1,
            col: 1,
            col_want: 1,
        };
        proof {
            let m = editor@;
            assert(m.lines =~= seq![0int]);
            assert(m.pending =~= source@);
            assert(m == EditorModel::start(source@));
            assert(m.table.doc() =~= Seq::<u8>::empty());
            assert(line_lengths(Seq::<u8>::empty()) =~= seq![0int]);
            assert(line_start(m.lines, 0) == 0);
        }
        editor.read_lines(1);
        editor
    }

    /// Reads the next line of the file into the document.
    fn read_line(&mut self)
        requires
            old(self).wf(),
            old(self)@.pending.len() > 0,
        ensures
            final(self).wf(),
            final(self)@ == old(self)@.load_one(),
            final(self).path() == old(self).path(),
    {
        let ghost before = self@;
        proof {
            lemma_wf_lines(before);
            lemma_next_line(before);
            lemma_line_end_of_rest(self.source@, self.source_pos as int, self.source_pos as int);
            crate::lines::lemma_line_end(self.source@, self.source_pos as int);
            assert(before.pending.len() == self.source@.len() - self.source_pos);
        }
        let end: usize = find_line_end(self.source.as_slice(), self.source_pos);
        let line = slice_subrange(self.source.as_slice(), self.source_pos, end);
        assert(line@ =~= before.next_line());
        let ended: bool = line[line.len() - 1] == NEWLINE;
        let len: usize = if ended {
            line.len() - 1
        } else {
            line.len()
        };
        self.piece_table.update_original_buffer(line);
        proof {
            assert(self.piece_table@ == before.load_one().table);
            lemma_load_one(before);
            lemma_wf_lines(before.load_one());
            assert(before.load_one().table.doc().len() == before.table.doc().len() + line@.len());
        }
        if self.ends_with_newline {
            self.lines.push(len);
        } else {
            let last: usize = self.lines.len() - 1;
            let n: usize = self.lines[last];
            assert(before.lines[last as int] == n);
            assert(before.lines[last as int] <= before.table.doc().len());
            self.lines[last] = n + len;
        }
        self.ends_with_newline = ended;
        self.source_pos = end;
        proof {
            assert(self@.lines =~= before.load_one().lines);
            assert(self@.pending =~= before.load_one().pending);
        }
    }

    /// Reads up to `num_lines` lines of the file into the document and
    /// returns how many it read. A read that finds nothing left marks the
    /// end of the file.
    pub fn read_lines(&mut self, num_lines: usize) -> (lines_read: usize)
        requires
            old(self).wf(),
        ensures
            final(self).wf(),
            final(self)@ == old(self)@.load(num_lines as int),
            lines_read == old(self)@.load_count(num_lines as int),
            final(self).path() == old(self).path(),
    {
        let mut lines_read: usize = 0;
        while lines_read < num_lines && !self.eof_reached
            invariant
                self.wf(),
                lines_read <= num_lines,
                self@.load(num_lines - lines_read) == old(self)@.load(num_lines as int),
                lines_read + self@.load_count(num_lines - lines_read) == old(self)@.load_count(
                    num_lines as int,
                ),
                self.path() == old(self).path(),
            decreases num_lines - lines_read + (if self.eof_reached { 0int } else { 1int }),
        {
            if self.source_pos == self.source.len() {
                self.eof_reached = true;
            } else {
                self.read_line();
                lines_read = lines_read + 1;
            }
        }
        lines_read
    }

    /// Reads the rest of the file into the document.
    pub fn read_to_eof(&mut self)
        requires
            old(self).wf(),
        ensures
            final(self).wf(),
            final(self)@ == old(self)@.load_all(),
            final(self)@.eof,
            final(self).path() == old(self).path(),
    {
        proof {
            lemma_load_enough(self@, self@.pending.len() + 1int, self@.pending.len() + 1int);
        }
        while !self.eof_reached
            invariant
                self.wf(),
                self@.load_all() == old(self)@.load_all(),
                self.path() == old(self).path(),
            decreases self@.pending.len() + (if self.eof_reached { 0int } else { 1int }),
        {
            let ghost before = self@;
            if self.source_pos == self.source.len() {
                self.eof_reached = true;
            } else {
                proof {
                    lemma_next_line(before);
                    lemma_load_enough(
                        before.load_one(),
                        before.pending.len() as int,
                        before.load_one().pending.len() + 1int,
                    );
                }
                self.read_line();
            }
        }
    }

    /// The document offset at which row `row` begins, found from the
    /// cursor: the rows between are crossed one by one.
    fn row_start(&self, row: usize) -> (start: usize)
        requires
            self.wf(),
            1 <= row <= self@.lines.len(),
        ensures
            start == line_start(self@.lines, row - 1),
    {
        proof {
            lemma_wf_lines(self@);
        }
        proof {
            assert(self@.has_position(self@.row, 1));
            assert(self@.offset(self@.row, 1) >= 0);
        }
        let mut at: usize = self.row;
        let mut start: usize = self.pt_index - (self.col - 1);
        if row <= at {
            while at > row
                invariant
                    self.wf(),
                    1 <= row <= at <= self@.lines.len(),
                    start == line_start(self@.lines, at - 1),
                decreases at,
            {
                proof {
                    lemma_wf_lines(self@);
                    assert(self@.lines[at - 2] == self.lines@[at - 2]);
                    assert(self@.has_position(at - 1, 1));
                    assert(self@.offset(at - 1, 1) >= 0);
                    assert(line_start(self@.lines, at - 1) == line_start(self@.lines, at - 2)
                        + self@.lines[at - 2] + 1);
                }
                at = at - 1;
                start = start - (self.lines[at - 1] + 1);
            }
        } else {
            while at < row
                invariant
                    self.wf(),
                    1 <= at <= row <= self@.lines.len(),
                    start == line_start(self@.lines, at - 1),
                decreases row - at,
            {
                proof {
                    lemma_wf_lines(self@);
                    assert(self@.lines[at - 1] == self.lines@[at - 1]);
                    assert(self@.has_position(at + 1, 1));
                    assert(self@.offset(at + 1, 1) <= line_start(
                        self@.lines,
                        self@.lines.len() as int,
                    ) - 1);
                    assert(line_start(self@.lines, at as int) == line_start(self@.lines, at - 1)
                        + self@.lines[at - 1] + 1);
                }
                start = start + (self.lines[at - 1] + 1);
                at = at + 1;
            }
        }
        start
    }

    /// Moves the cursor to row `row`, to the column that vertical
    /// motions try to reach.
    fn move_to_row(&mut self, row: usize)
        requires
            old(self).wf(),
            1 <= row <= old(self)@.lines.len(),
        ensures
            final(self).wf(),
            final(self)@ == old(self)@.at_row(row as int),
            final(self).path() == old(self).path(),
    {
        proof {
            lemma_wf_lines(self@);
            lemma_at_row(self@, row as int);
            assert(self@.lines[row - 1] == self.lines@[row - 1]);
        }
        let start: usize = self.row_start(row);
        let end: usize = self.lines[row - 1] + 1;
        let col: usize = if self.col_want < end {
            self.col_want
        } else {
            end
        };
        self.row = row;
        self.col = col;
        self.pt_index = start + (col - 1);
    }

    /// Moves the cursor to column `col` of its row.
    fn move_to_col(&mut self, col: usize)
        requires
            old(self).wf(),
            old(self)@.has_position(old(self)@.row, col as int),
        ensures
            final(self).wf(),
            final(self)@ == old(self)@.at_col(col as int),
            final(self).path() == old(self).path(),
    {
        proof {
            lemma_wf_lines(self@);
            lemma_at_col(self@, col as int);
            assert(self@.has_position(self@.row, 1));
            assert(self@.offset(self@.row, 1) >= 0);
            assert(self@.offset(self@.row, col as int) <= line_start(
                self@.lines,
                self@.lines.len() as int,
            ) - 1);
        }
        self.pt_index = self.pt_index - (self.col - 1) + (col - 1);
        self.col = col;
        self.col_want = col;
    }

    /// The column behind the last byte of the cursor's row.
    fn last_col(&self) -> (col: usize)
        requires
            self.wf(),
        ensures
            col == self@.lines[self@.row - 1] + 1,
            self@.has_position(self@.row, col as int),
    {
        proof {
            lemma_wf_lines(self@);
            assert(self@.lines[self.row - 1] == self.lines@[self.row - 1]);
        }
        self.lines[self.row - 1] + 1
    }

    /// Moves the cursor up by `num` rows, or to the first row where
    /// there are fewer above it. The column is the one that vertical
    /// motions try to reach, or the last one of a shorter row.
    pub fn up(&mut self, num: usize)
        requires
            old(self).wf(),
        ensures
            final(self).wf(),
            final(self)@ == old(self)@.up(num as int),
            final(self).path() == old(self).path(),
    {
        if num == 0 || self.row == 1 {
            return ;
        }
        if num >= self.row {
            self.move_to_row(1);
        } else {
            self.move_to_row(self.row - num);
        }
    }

    /// Moves the cursor down by `num` rows among the rows that are read.
    fn down_loaded(&mut self, num: usize)
        requires
            old(self).wf(),
        ensures
            final(self).wf(),
            final(self)@ == old(self)@.down_loaded(num as int),
            final(self).path() == old(self).path(),
    {
        let rows: usize = self.lines.len();
        if num == 0 || self.row == rows {
            return ;
        }
        if num > rows - self.row {
            self.move_to_row(rows);
        } else {
            self.move_to_row(self.row + num);
        }
    }

    /// Moves the cursor down by `num` rows. Where the window has too few
    /// rows, as many lines as are missing are read from the file first;
    /// where the file has too few, the cursor goes to the last row.
    pub fn down(&mut self, num: usize)
        requires
            old(self).wf(),
        ensures
            final(self).wf(),
            final(self)@ == old(self)@.down(num as int),
            final(self).path() == old(self).path(),
    {
        if num == 0 {
            return ;
        }
        let rows: usize = self.lines.len();
        if num > rows - self.row {
            self.read_lines(num - (rows - self.row));
        }
        self.down_loaded(num);
    }

    /// Moves the cursor right by `num` columns, or behind the last byte
    /// of the row where the row is shorter. Vertical motions try to
    /// reach the new column from now on.
    pub fn right(&mut self, num: usize)
        requires
            old(self).wf(),
        ensures
            final(self).wf(),
            final(self)@ == old(self)@.right(num as int),
            final(self).path() == old(self).path(),
    {
        let end: usize = self.last_col();
        if num > end - self.col {
            self.move_to_col(end);
        } else {
            self.move_to_col(self.col + num);
        }
    }

    /// Moves the cursor left by `num` columns, or to column 1 where
    /// there are fewer before it. Vertical motions try to reach the new
    /// column from now on.
    pub fn left(&mut self, num: usize)
        requires
            old(self).wf(),
        ensures
            final(self).wf(),
            final(self)@ == old(self)@.left(num as int),
            final(self).path() == old(self).path(),
    {
        proof {
            lemma_wf_lines(self@);
        }
        if num >= self.col {
            self.move_to_col(1);
        } else {
            self.move_to_col(self.col - num);
        }
    }

    /// Moves the cursor to column `col` of its row, or to the nearest
    /// column that the row has. Vertical motions try to reach the new
    /// column from now on.
    pub fn goto_col(&mut self, col: usize)
        requires
            old(self).wf(),
        ensures
            final(self).wf(),
            final(self)@ == old(self)@.goto_col(col as int),
            final(self).path() == old(self).path(),
    {
        let end: usize = self.last_col();
        if col < 1 {
            self.move_to_col(1);
        } else if col < end {
            self.move_to_col(col);
        } else {
            self.move_to_col(end);
        }
    }

    /// Moves the cursor to row `row`, or to the nearest row that there
    /// is once the file is read as far as needed. The column is the one
    /// that vertical motions try to reach.
    pub fn goto_row(&mut self, row: usize)
        requires
            old(self).wf(),
        ensures
            final(self).wf(),
            final(self)@ == old(self)@.goto_row(row as int),
            final(self).path() == old(self).path(),
    {
        if row < self.row {
            self.up(self.row - row);
        } else if row > self.row {
            self.down(row - self.row);
        }
    }

    /// Moves the cursor to row `row`, then to column `col`, or to the
    /// nearest that there are.
    pub fn goto(&mut self, row: usize, col: usize)
        requires
            old(self).wf(),
        ensures
            final(self).wf(),
            final(self)@ == old(self)@.goto(row as int, col as int),
            final(self).path() == old(self).path(),
    {
        self.goto_row(row);
        self.goto_col(col);
    }

    /// Moves the cursor behind the last byte of its row.
    pub fn goto_last_col(&mut self)
        requires
            old(self).wf(),
        ensures
            final(self).wf(),
            final(self)@ == old(self)@.goto_last_col(),
            final(self).path() == old(self).path(),
    {
        let end: usize = self.last_col();
        self.goto_col(end);
    }

    /// Reads the rest of the file and moves the cursor to column 1 of
    /// the last row.
    pub fn goto_last_row(&mut self)
        requires
            old(self).wf(),
        ensures
            final(self).wf(),
            final(self)@ == old(self)@.goto_last_row(),
            final(self).path() == old(self).path(),
    {
        self.read_to_eof();
        let rows: usize = self.lines.len();
        self.goto(rows, 1);
    }

    /// Inserts `text` at the cursor and moves the cursor behind it.
    ///
    /// The row of the cursor is cut there: the first line of the text
    /// continues its left part, every further line of the text is a new
    /// row, and the right part of the row continues the last of them.
    /// The text may be as long as [`Self::room`] says.
    pub fn add_text(&mut self, text: String)
        requires
            old(self).wf(),
            encode_utf8(text@).len() <= old(self)@.room(),
        ensures
            final(self).wf(),
            final(self)@ == old(self)@.add_text(encode_utf8(text@)),
            final(self)@.table.doc() == old(self)@.table.doc().subrange(0, old(self)@.byte_index)
                + encode_utf8(text@) + old(self)@.table.doc().subrange(
                old(self)@.byte_index,
                old(self)@.table.doc().len() as int,
            ),
            final(self).path() == old(self).path(),
    {
        let ghost before = self@;
        let ghost typed = encode_utf8(text@);
        let ghost after = before.add_text(typed);
        let bytes = text.as_str().as_bytes();
        let text_lines = line_lengths_of(bytes);
        let text_len: usize = bytes.len();
        let k: usize = text_lines.len();
        proof {
            lemma_wf_lines(before);
            crate::lines::lemma_line_lengths_shape(typed);
            assert(before.has_position(before.row, before.col));
            assert(before.offset(before.row, before.col) <= before.table.doc().len());
            assert(as_ints(text_lines@) =~= line_lengths(typed));
        }
        let last_len: usize = text_lines[k - 1];
        // the cursor's offset lies inside the document: this cannot fail
        let _ = self.piece_table.add_text(text, self.pt_index);
        proof {
            assert(self.piece_table@ == after.table);
            lemma_add_text(before, typed);
            lemma_wf_lines(after);
            assert forall|i: int| 0 <= i < after.lines.len() implies #[trigger] after.lines[i]
                <= usize::MAX by {
                assert(after.lines[i] <= after.table.doc().len());
            }
            assert(after.has_position(after.row, after.col));
            assert(before.lines[self.row - 1] == self.lines@[self.row - 1]);
            assert(as_ints(self.lines@) == before.lines);
        }
        insert_line_lengths(&mut self.lines, self.row - 1, self.col - 1, &text_lines);
        if k == 1 {
            self.col = self.col + text_len;
        } else {
            self.row = self.row + (k - 1);
            self.col = last_len + 1;
        }
        self.col_want = self.col;
        self.pt_index = self.pt_index + text_len;
        proof {
            assert(self@.lines == after.lines);
            assert(self@ == after);
        }
    }

    /// Deletes the text from position `(r1, c1)` up to position
    /// `(r2, c2)`, which comes later, and puts the cursor at `(r1, c1)`.
    fn remove_between(&mut self, r1: usize, c1: usize, r2: usize, c2: usize)
        requires
            old(self).wf(),
            old(self)@.has_position(r1 as int, c1 as int),
            old(self)@.has_position(r2 as int, c2 as int),
            EditorModel::comes_before(r1 as int, c1 as int, r2 as int, c2 as int),
        ensures
            final(self).wf(),
            final(self)@ == old(self)@.without(r1 as int, c1 as int, r2 as int, c2 as int),
            final(self).path() == old(self).path(),
    {
        let ghost m = self@;
        let ghost after = m.without(r1 as int, c1 as int, r2 as int, c2 as int);
        proof {
            lemma_wf_lines(m);
            lemma_positions_in_order(m, r1 as int, c1 as int, r2 as int, c2 as int);
            assert(m.offset(r1 as int, c1 as int) >= 0);
        }
        let lo: usize = self.row_start(r1) + (c1 - 1);
        let hi: usize = self.row_start(r2) + (c2 - 1);
        // the offsets are in order and inside the document: this cannot fail
        let _ = self.piece_table.delete_text(lo, hi);
        proof {
            assert(self.piece_table@ == after.table);
            lemma_without(m, r1 as int, c1 as int, r2 as int, c2 as int);
            lemma_wf_lines(after);
            assert(after.lines[r1 - 1] <= after.table.doc().len());
            assert(m.lines[r2 - 1] == self.lines@[r2 - 1]);
        }
        let merged: usize = (c1 - 1) + (self.lines[r2 - 1] - (c2 - 1));
        merge_rows(&mut self.lines, r1 - 1, r2 - 1, merged);
        self.row = r1;
        self.col = c1;
        self.pt_index = lo;
        proof {
            assert(self@.lines =~= after.lines);
        }
    }

    /// Whether `(row, col)` is a position of the window once the file is
    /// read as far as row `row`. Nothing is read: the lines that would be
    /// are only counted.
    fn reaches(&self, row: usize, col: usize) -> (reaches: bool)
        requires
            self.wf(),
        ensures
            reaches == self@.reaching(row as int).has_position(row as int, col as int),
    {
        let rows: usize = self.lines.len();
        proof {
            lemma_wf_lines(self@);
        }
        if row == 0 || col == 0 {
            return false;
        }
        if row <= rows {
            assert(self@.lines[row - 1] == self.lines@[row - 1]);
            return col - 1 <= self.lines[row - 1];
        }
        let mut left: usize = row - rows;
        let mut pos: usize = self.source_pos;
        let mut count: usize = rows;
        let mut last_len: usize = self.lines[rows - 1];
        let mut ended: bool = self.ends_with_newline;
        let mut eof: bool = self.eof_reached;
        let ghost mut cur = self@;
        proof {
            assert(self@.lines[rows - 1] == self.lines@[rows - 1]);
            assert(self@.pending.len() == self.source@.len() - self.source_pos);
        }
        while left > 0 && !eof
            invariant
                self.wf(),
                self.source_pos <= pos <= self.source@.len(),
                1 <= count,
                count + left <= row,
                cur.lines.len() == count,
                cur.lines.last() == last_len,
                cur.terminated == ended,
                cur.eof == eof,
                cur.pending == self.source@.skip(pos as int),
                cur.load(left as int) == self@.load(row - rows),
                last_len + (self.source@.len() - pos) <= self@.table.doc().len() + (
                self.source@.len() - self.source_pos),
                self@.table.doc().len() + (self.source@.len() - self.source_pos) < usize::MAX,
            decreases left + (if eof { 0int } else { 1int }),
        {
            if pos == self.source.len() {
                eof = true;
                proof {
                    cur = EditorModel { eof: true, ..cur };
                }
            } else {
                proof {
                    lemma_next_line(cur);
                    lemma_line_end_of_rest(self.source@, pos as int, pos as int);
                    crate::lines::lemma_line_end(self.source@, pos as int);
                }
                let end: usize = find_line_end(self.source.as_slice(), pos);
                let has_newline: bool = self.source[end - 1] == NEWLINE;
                proof {
                    let line = cur.next_line();
                    assert(line =~= self.source@.subrange(pos as int, end as int));
                    assert(line.last() == self.source@[end - 1]);
                    assert(cur.load_one().pending =~= self.source@.skip(end as int));
                }
                let len: usize = if has_newline {
                    end - pos - 1
                } else {
                    end - pos
                };
                if ended {
                    count = count + 1;
                    last_len = len;
                } else {
                    last_len = last_len + len;
                }
                ended = has_newline;
                pos = end;
                left = left - 1;
                proof {
                    cur = cur.load_one();
                }
            }
        }
        count == row && col - 1 <= last_len
    }

    /// Deletes the text between the cursor and position `(row, col)`.
    fn delete_at(&mut self, row: usize, col: usize) -> (result: Result<(), Error>)
        requires
            old(self).wf(),
        ensures
            final(self).wf(),
            final(self)@ == old(self)@.delete_at(row as int, col as int),
            final(self).path() == old(self).path(),
            (row == old(self)@.row && col == old(self)@.col) || old(self)@.reaching(
                row as int,
            ).has_position(row as int, col as int) ==> result == Ok::<(), Error>(()),
            !((row == old(self)@.row && col == old(self)@.col) || old(self)@.reaching(
                row as int,
            ).has_position(row as int, col as int)) ==> result == Err::<(), Error>(
                Error::OutOfRange,
            ),
    {
        if row == self.row && col == self.col {
            return Ok(());
        }
        if !self.reaches(row, col) {
            return Err(Error::OutOfRange);
        }
        let rows: usize = self.lines.len();
        if row > rows {
            proof {
                lemma_load_keeps_cursor(self@, row - rows);
            }
            self.read_lines(row - rows);
        }
        if self.row < row || (self.row == row && self.col < col) {
            self.remove_between(self.row, self.col, row, col);
        } else {
            self.remove_between(row, col, self.row, self.col);
            self.col_want = col;
        }
        Ok(())
    }

    /// Reads the rest of the file and deletes the text from the cursor
    /// to the end of the last row.
    pub fn delete_to_end(&mut self)
        requires
            old(self).wf(),
        ensures
            final(self).wf(),
            final(self)@ == old(self)@.delete_to_end(),
            final(self).path() == old(self).path(),
    {
        self.read_to_eof();
        let rows: usize = self.lines.len();
        proof {
            lemma_wf_lines(self@);
            assert(self@.lines[rows - 1] == self.lines@[rows - 1]);
            assert(self@.lines.last() == self@.lines[rows - 1]);
        }
        let end: usize = self.lines[rows - 1] + 1;
        let _ = self.delete_at(rows, end);
    }

    /// Deletes the text between the cursor and position `(row, col)`,
    /// whichever of the two comes first; where both `row` and `col` are
    /// `usize::MAX`, the text from the cursor to the end of the file.
    ///
    /// Where the window has fewer than `row` rows, as many lines as are
    /// missing are read from the file first. Fails with
    /// [`Error::OutOfRange`], and neither reads nor changes anything,
    /// where `(row, col)` would be no position of the window even then.
    /// The cursor ends at the earlier of the two positions.
    pub fn delete_text(&mut self, row: usize, col: usize) -> (result: Result<(), Error>)
        requires
            old(self).wf(),
        ensures
            final(self).wf(),
            final(self)@ == old(self)@.delete_text(row as int, col as int),
            final(self).path() == old(self).path(),
            old(self)@.can_delete(row as int, col as int) ==> result == Ok::<(), Error>(()),
            !old(self)@.can_delete(row as int, col as int) ==> result == Err::<(), Error>(
                Error::OutOfRange,
            ),
    {
        if row == usize::MAX && col == usize::MAX {
            self.delete_to_end();
            Ok(())
        } else {
            self.delete_at(row, col)
        }
    }

    /// Deletes the whole document; an empty document is left untouched.
    /// The cursor goes to row 1, column 1.
    pub fn delete_all(&mut self)
        requires
            old(self).wf(),
        ensures
            final(self).wf(),
            final(self)@ == old(self)@.delete_all(),
            final(self).path() == old(self).path(),
    {
        let ghost before = self@;
        let len: usize = self.piece_table.text_len();
        if len == 0 {
            return ;
        }
        // the document is not empty: this cannot fail
        let _ = self.piece_table.delete_text(0, len);
        proof {
            assert(self.piece_table@ == before.delete_all().table);
            lemma_delete_all(before);
        }
        self.lines.clear();
        self.lines.push(0);
        self.row = 1;
        self.col = 1;
        self.col_want = 1;
        self.pt_index = 0;
        self.ends_with_newline = false;
        proof {
            assert(self@.lines =~= seq![0int]);
        }
    }

    /// The document.
    pub fn text(&mut self) -> (text: &Vec<u8>)
        requires
            old(self).wf(),
        ensures
            final(self).wf(),
            final(self)@ == old(self)@,
            final(self).path() == old(self).path(),
            text@ == old(self)@.table.doc(),
    {
        self.piece_table.text()
    }

    /// The rows from `first` to `last - 1`, counted from 1, with the
    /// newlines between them and none behind the last; rows that the
    /// window does not have are left out.
    pub fn text_lines(&mut self, first: usize, last: usize) -> (text: &[u8])
        requires
            old(self).wf(),
            1 <= first < last,
            first <= old(self)@.lines.len(),
        ensures
            final(self).wf(),
            final(self)@ == old(self)@,
            final(self).path() == old(self).path(),
            text@ == old(self)@.text_lines(first as int, last as int),
    {
        let rows: usize = self.lines.len();
        let stop: usize = if last - 1 < rows {
            last - 1
        } else {
            rows
        };
        proof {
            let m = self@;
            lemma_wf_lines(m);
            assert(m.lines[stop - 1] == self.lines@[stop - 1]);
            assert(m.has_position(stop as int, m.lines[stop - 1] + 1));
            assert(m.offset(stop as int, m.lines[stop - 1] + 1) <= m.table.doc().len());
            assert(line_start(m.lines, stop as int) == line_start(m.lines, stop - 1)
                + m.lines[stop - 1] + 1);
            lemma_line_start_monotone(m.lines, first - 1, stop as int);
        }
        let start: usize = self.row_start(first);
        let end: usize = self.row_start(stop) + self.lines[stop - 1];
        let all = self.piece_table.text();
        slice_subrange(all.as_slice(), start, end)
    }

    /// Row `line`, counted from 1, without its newline.
    pub fn text_line(&mut self, line: usize) -> (text: &[u8])
        requires
            old(self).wf(),
            1 <= line <= old(self)@.lines.len(),
        ensures
            final(self).wf(),
            final(self)@ == old(self)@,
            final(self).path() == old(self).path(),
            text@ == old(self)@.text_lines(line as int, line + 1),
            text@ == old(self)@.table.doc().subrange(
                old(self)@.offset(line as int, 1),
                old(self)@.offset(line as int, 1) + old(self)@.lines[line - 1],
            ),
    {
        proof {
            let m = self@;
            lemma_wf_lines(m);
            assert(m.lines[line - 1] == self.lines@[line - 1]);
            assert(m.has_position(line as int, m.lines[line - 1] + 1));
            assert(m.offset(line as int, m.lines[line - 1] + 1) <= m.table.doc().len());
            assert(line_start(m.lines, line as int) == line_start(m.lines, line - 1)
                + m.lines[line - 1] + 1);
        }
        let start: usize = self.row_start(line);
        let end: usize = start + self.lines[line - 1];
        let all = self.piece_table.text();
        slice_subrange(all.as_slice(), start, end)
    }

    /// The path of the file being edited.
    pub fn file_path(&self) -> (path: &str)
        ensures
            path@ == self.path(),
    {
        self.file_path.as_str()
    }

    /// Sets the path of the file being edited.
    pub fn update_file_path(&mut self, file_path: String)
        ensures
            final(self).path() == file_path@,
            final(self)@ == old(self)@,
            old(self).wf() ==> final(self).wf(),
    {
        self.file_path = file_path;
    }

    /// The cursor's row, counted from 1.
    pub fn row(&self) -> (row: usize)
        ensures
            row == self@.row,
    {
        self.row
    }

    /// The cursor's column, counted from 1.
    pub fn col(&self) -> (col: usize)
        ensures
            col == self@.col,
    {
        self.col
    }

    /// The number of bytes in row `row`, counted from 1.
    pub fn num_cols(&self, row: usize) -> (count: usize)
        requires
            1 <= row <= self@.lines.len(),
        ensures
            count == self@.lines[row - 1],
    {
        self.lines[row - 1]
    }

    /// The number of rows.
    pub fn num_lines(&self) -> (count: usize)
        ensures
            count == self@.lines.len(),
    {
        self.lines.len()
    }

    /// The number of bytes in row `line`, counted from 1.
    pub fn line_len(&self, line: usize) -> (len: usize)
        requires
            1 <= line <= self@.lines.len(),
        ensures
            len == self@.lines[line - 1],
    {
        self.lines[line - 1]
    }

    /// Whether the document is still what was read from the file: true
    /// until the first edit.
    pub fn text_matches(&self) -> (matches: bool)
        ensures
            matches == (self@.table.history.len() == 0),
    {
        !self.piece_table.actions_taken()
    }

    /// How many bytes can still be typed.
    pub fn room(&self) -> (room: usize)
        requires
            self.wf(),
        ensures
            room == self@.room(),
    {
        let (original, add) = self.piece_table.buffer_lens();
        usize::MAX - 2 - original - add - (self.source.len() - self.source_pos)
    }
}

} // verus!

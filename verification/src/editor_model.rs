//! The editor window as a mathematical value: the piece table, the line
//! index, the cursor and what is left to read of the file; and the
//! motions and edits as functions on it.
//!
//! Rows and columns count from 1. Column `c` of a row is the position
//! before the row's byte `c`; a row of `n` bytes has the columns 1 to
//! `n + 1`, the last one being where the newline sits.

use vstd::prelude::*;
use crate::lines::{NEWLINE, joined, line_end, line_lengths, line_start};
use crate::table_model::TableModel;

verus! {

/// The smaller of two integers.
pub open spec fn least(a: int, b: int) -> int {
    if a <= b {
        a
    } else {
        b
    }
}

/// The state of an editor window.
pub struct EditorModel {
    /// The piece table that holds the document.
    pub table: TableModel,
    /// The line index: the length of every row of the document, without
    /// its newline.
    pub lines: Seq<int>,
    /// The cursor's row.
    pub row: int,
    /// The cursor's column.
    pub col: int,
    /// The column that vertical motions try to reach.
    pub col_want: int,
    /// The document offset of the cursor.
    pub byte_index: int,
    /// What has not been read of the file yet.
    pub pending: Seq<u8>,
    /// Whether a read has found the file at its end.
    pub eof: bool,
    /// Whether the last row has its newline in the document: true while
    /// the last line read from the file ended with one.
    pub terminated: bool,
}

impl EditorModel {
    /// The line index of the whole document: behind a last row that has
    /// its newline, the document has one more, empty line, which is no
    /// row of the window.
    pub open spec fn full_lines(self) -> Seq<int> {
        if self.terminated {
            self.lines.push(0)
        } else {
            self.lines
        }
    }

    /// How many bytes can still be typed: the two buffers and the rest
    /// of the file have to stay countable in a `usize`, with two to
    /// spare. One is for the column behind the last byte of a row; the
    /// other keeps every row number below `usize::MAX`, which stands for
    /// the end of the file.
    pub open spec fn room(self) -> int {
        usize::MAX - 2 - self.table.original.len() - self.table.add.len() - self.pending.len()
    }

    /// Row `r`, column `c` is a position of the window.
    pub open spec fn has_position(self, r: int, c: int) -> bool {
        &&& 1 <= r <= self.lines.len()
        &&& 1 <= c <= self.lines[r - 1] + 1
    }

    /// The document offset of row `r`, column `c`.
    pub open spec fn offset(self, r: int, c: int) -> int {
        line_start(self.lines, r - 1) + c - 1
    }

    /// The state is one that an editor window can be in: the line index
    /// is that of the document, the cursor is at a position of the
    /// window, and its document offset is that of its row and column.
    pub open spec fn wf(self) -> bool {
        &&& self.table.wf()
        &&& line_lengths(self.table.doc()) == self.full_lines()
        &&& self.lines.len() >= 1
        &&& self.has_position(self.row, self.col)
        &&& 1 <= self.col_want
        &&& self.byte_index == self.offset(self.row, self.col)
        &&& self.room() >= 0
        &&& self.eof ==> self.pending.len() == 0
    }

    /// A window on nothing, with `source` left to read.
    pub open spec fn start(source: Seq<u8>) -> EditorModel {
        EditorModel {
            table: TableModel::empty(),
            lines: seq![0int],
            row: 1,
            col: 1,
            col_want: 1,
            byte_index: 0,
            pending: source,
            eof: false,
            terminated: false,
        }
    }

    /// A window on the file `source`, of which the first line is read.
    pub open spec fn open(source: Seq<u8>) -> EditorModel {
        Self::start(source).load(1)
    }

    /// The next line of the file, with its newline.
    pub open spec fn next_line(self) -> Seq<u8> {
        self.pending.take(line_end(self.pending, 0))
    }

    /// One line read from the file (`self.pending` is not empty).
    ///
    /// The line goes to the end of the document. Behind a last row that
    /// has its newline it is a new row; else its bytes continue the
    /// last row.
    pub open spec fn load_one(self) -> EditorModel {
        let line = self.next_line();
        let ended = line.last() == NEWLINE;
        let len = if ended {
            line.len() - 1
        } else {
            line.len() as int
        };
        EditorModel {
            table: self.table.append_original(line),
            lines: if self.terminated {
                self.lines.push(len)
            } else {
                self.lines.update(self.lines.len() - 1, self.lines.last() + len)
            },
            terminated: ended,
            pending: self.pending.skip(line.len() as int),
            ..self
        }
    }

    /// Up to `n` lines read from the file. A read that finds nothing
    /// left marks the end of the file and is the last one.
    pub open spec fn load(self, n: int) -> EditorModel
        decreases n,
    {
        if n <= 0 || self.eof {
            self
        } else if self.pending.len() == 0 {
            EditorModel { eof: true, ..self }
        } else {
            self.load_one().load(n - 1)
        }
    }

    /// How many lines [`Self::load`] reads.
    pub open spec fn load_count(self, n: int) -> int
        decreases n,
    {
        if n <= 0 || self.eof || self.pending.len() == 0 {
            0
        } else {
            1 + self.load_one().load_count(n - 1)
        }
    }

    /// The whole file read.
    pub open spec fn load_all(self) -> EditorModel {
        self.load(self.pending.len() + 1int)
    }

    /// The cursor moved to row `row`, to the column that vertical
    /// motions try to reach or, where the row is too short for it, behind
    /// the row's last byte.
    pub open spec fn at_row(self, row: int) -> EditorModel {
        let col = least(self.col_want, self.lines[row - 1] + 1);
        EditorModel { row, col, byte_index: self.offset(row, col), ..self }
    }

    /// The cursor moved to column `col` of its row, which vertical
    /// motions try to reach from now on.
    pub open spec fn at_col(self, col: int) -> EditorModel {
        EditorModel { col, col_want: col, byte_index: self.offset(self.row, col), ..self }
    }

    /// The cursor moved up by `n` rows, or to the first row where there
    /// are fewer above it.
    pub open spec fn up(self, n: int) -> EditorModel {
        if n <= 0 || self.row == 1 {
            self
        } else if n >= self.row {
            self.at_row(1)
        } else {
            self.at_row(self.row - n)
        }
    }

    /// The cursor moved down by `n` rows among the rows that are read,
    /// or to the last of them where there are fewer below it.
    pub open spec fn down_loaded(self, n: int) -> EditorModel {
        if n <= 0 || self.row == self.lines.len() {
            self
        } else if self.row + n > self.lines.len() {
            self.at_row(self.lines.len() as int)
        } else {
            self.at_row(self.row + n)
        }
    }

    /// The cursor moved down by `n` rows. Where the window has too few
    /// rows, as many lines as are missing are read from the file first.
    pub open spec fn down(self, n: int) -> EditorModel {
        if n <= 0 {
            self
        } else if self.row + n > self.lines.len() {
            self.load(self.row + n - self.lines.len()).down_loaded(n)
        } else {
            self.down_loaded(n)
        }
    }

    /// The cursor moved right by `n` columns, or behind the row's last
    /// byte where the row is shorter.
    pub open spec fn right(self, n: int) -> EditorModel {
        self.at_col(least(self.col + n, self.lines[self.row - 1] + 1))
    }

    /// The cursor moved left by `n` columns, or to column 1 where there
    /// are fewer before it.
    pub open spec fn left(self, n: int) -> EditorModel {
        if n >= self.col {
            self.at_col(1)
        } else {
            self.at_col(self.col - n)
        }
    }

    /// The cursor moved to column `col`, or to the nearest column that
    /// the row has.
    pub open spec fn goto_col(self, col: int) -> EditorModel {
        if col < 1 {
            self.at_col(1)
        } else {
            self.at_col(least(col, self.lines[self.row - 1] + 1))
        }
    }

    /// The cursor moved to row `row`, or to the nearest row that there
    /// is once the file is read as far as needed.
    pub open spec fn goto_row(self, row: int) -> EditorModel {
        if row < self.row {
            self.up(self.row - row)
        } else if row > self.row {
            self.down(row - self.row)
        } else {
            self
        }
    }

    /// The cursor moved to row `row`, then to column `col`.
    pub open spec fn goto(self, row: int, col: int) -> EditorModel {
        self.goto_row(row).goto_col(col)
    }

    /// The cursor moved behind the last byte of its row.
    pub open spec fn goto_last_col(self) -> EditorModel {
        self.goto_col(self.lines[self.row - 1] + 1)
    }

    /// The whole file read, and the cursor moved to column 1 of the
    /// last row.
    pub open spec fn goto_last_row(self) -> EditorModel {
        self.load_all().goto(self.load_all().lines.len() as int, 1)
    }

    /// The line index after a text with the line index `text_lines` was
    /// inserted into row `r` (counted from 0) behind its first `c`
    /// bytes: the first line of the text continues what is before it in
    /// the row, and what was behind it in the row continues the last
    /// line of the text.
    pub open spec fn lines_with(lines: Seq<int>, r: int, c: int, text_lines: Seq<int>) -> Seq<int> {
        lines.take(r) + joined(joined(seq![c], text_lines), seq![lines[r] - c]) + lines.skip(r + 1)
    }

    /// `text` inserted at the cursor, which moves behind it.
    pub open spec fn add_text(self, text: Seq<u8>) -> EditorModel {
        let text_lines = line_lengths(text);
        let col = if text_lines.len() == 1 {
            self.col + text.len()
        } else {
            text_lines.last() + 1
        };
        EditorModel {
            table: self.table.insert(text, self.byte_index),
            lines: Self::lines_with(self.lines, self.row - 1, self.col - 1, text_lines),
            row: self.row + text_lines.len() - 1,
            col,
            col_want: col,
            byte_index: self.byte_index + text.len(),
            ..self
        }
    }

    /// Position `(r1, c1)` comes before position `(r2, c2)`.
    pub open spec fn comes_before(r1: int, c1: int, r2: int, c2: int) -> bool {
        r1 < r2 || (r1 == r2 && c1 < c2)
    }

    /// The text from position `(r1, c1)` up to position `(r2, c2)`, which
    /// comes later, deleted, and the cursor at `(r1, c1)`: what row `r2`
    /// has from `c2` on continues row `r1`, and the rows between them
    /// are gone.
    pub open spec fn without(self, r1: int, c1: int, r2: int, c2: int) -> EditorModel {
        EditorModel {
            table: self.table.delete(self.offset(r1, c1), self.offset(r2, c2)),
            lines: self.lines.take(r1 - 1) + seq![c1 - 1 + self.lines[r2 - 1] - (c2 - 1)]
                + self.lines.skip(r2),
            row: r1,
            col: c1,
            byte_index: self.offset(r1, c1),
            ..self
        }
    }

    /// The state in which a deletion up to row `row` looks for its
    /// position: where the window has fewer rows, as many lines as are
    /// missing are read from the file.
    pub open spec fn reaching(self, row: int) -> EditorModel {
        if row > self.lines.len() {
            self.load(row - self.lines.len())
        } else {
            self
        }
    }

    /// The text between the cursor and position `(row, col)` deleted.
    ///
    /// The cursor ends at the earlier of the two positions. Where the
    /// cursor was the later one, vertical motions try to reach its new
    /// column from now on. Nothing changes, and nothing is read, where
    /// `(row, col)` would be no position of the window even with the
    /// file read as far as row `row`.
    pub open spec fn delete_at(self, row: int, col: int) -> EditorModel {
        if row == self.row && col == self.col {
            self
        } else {
            let m = self.reaching(row);
            if !m.has_position(row, col) {
                self
            } else if Self::comes_before(m.row, m.col, row, col) {
                m.without(m.row, m.col, row, col)
            } else {
                EditorModel { col_want: col, ..m.without(row, col, m.row, m.col) }
            }
        }
    }

    /// The whole file read, and the text from the cursor to the end of
    /// the last row deleted.
    pub open spec fn delete_to_end(self) -> EditorModel {
        let m = self.load_all();
        m.delete_at(m.lines.len() as int, m.lines.last() + 1)
    }

    /// `(row, col)` stands for the end of the file, whatever rows and
    /// columns there are.
    pub open spec fn means_end(row: int, col: int) -> bool {
        row == usize::MAX && col == usize::MAX
    }

    /// Whether a deletion between the cursor and `(row, col)` can be
    /// made: `(row, col)` stands for the end of the file, or is where the
    /// cursor is, or is a position of the window once the file is read
    /// as far as row `row`.
    pub open spec fn can_delete(self, row: int, col: int) -> bool {
        ||| Self::means_end(row, col)
        ||| (row == self.row && col == self.col)
        ||| self.reaching(row).has_position(row, col)
    }

    /// The text between the cursor and `(row, col)` deleted, as
    /// [`Self::delete_at`] says; up to the end of the file where
    /// `(row, col)` stands for that.
    pub open spec fn delete_text(self, row: int, col: int) -> EditorModel {
        if Self::means_end(row, col) {
            self.delete_to_end()
        } else {
            self.delete_at(row, col)
        }
    }

    /// The whole document deleted, an empty document left untouched.
    pub open spec fn delete_all(self) -> EditorModel {
        if self.table.len() == 0 {
            self
        } else {
            EditorModel {
                table: self.table.delete(0, self.table.len()),
                lines: seq![0int],
                row: 1,
                col: 1,
                col_want: 1,
                byte_index: 0,
                terminated: false,
                ..self
            }
        }
    }

    /// The rows from `first` to `last - 1`, with the newlines between
    /// them (`1 <= first < last`, and row `first` exists); rows that the
    /// window does not have are left out.
    pub open spec fn text_lines(self, first: int, last: int) -> Seq<u8> {
        let stop = least(last - 1, self.lines.len() as int);
        self.table.doc().subrange(
            line_start(self.lines, first - 1),
            line_start(self.lines, stop) - 1,
        )
    }
}

} // verus!

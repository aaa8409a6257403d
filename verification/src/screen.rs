//! What the editor writes to the terminal.
//!
//! Nothing is written here: every function hands back the bytes that are
//! to be written. The control sequences among them are those of
//! [`crate::sequences`].

use vstd::prelude::*;
use crate::editor::Editor;
use crate::editor_laws::lemma_wf_lines;
use crate::editor_model::{EditorModel, least};
use crate::error::Error;
use crate::modes::{Memo, Mode, Reaction, Redraw, Stop, Via, ViaModel};
use crate::piece_table::append_bytes;
use crate::sequences::{
    blinking_bar, blinking_bar_bytes, blinking_block, blinking_block_bytes, clear_all,
    clear_all_bytes, clear_line, clear_line_bytes, goto, goto_bytes, restore_bytes, restore_cursor,
    save_bytes, save_cursor, show_bytes, show_cursor,
};

verus! {

/// The byte that sends the terminal's cursor to the left edge.
pub const CARRIAGE_RETURN: u8 = 13;

/// Row `row` of the window, without its newline.
pub open spec fn row_text(window: EditorModel, row: int) -> Seq<u8> {
    window.text_lines(row, row + 1)
}

/// The screen line on which row `row` is shown when row `first_row` is
/// at the top, where the screen has such a line.
pub open spec fn screen_line(row: int, first_row: int) -> Option<u16> {
    if 1 <= first_row <= row && row - first_row + 1 <= u16::MAX {
        Some((row - first_row + 1) as u16)
    } else {
        None
    }
}

/// The screen column of column `col`, where the screen has such a column.
pub open spec fn screen_column(col: int) -> Option<u16> {
    if 1 <= col <= u16::MAX {
        Some(col as u16)
    } else {
        None
    }
}

/// What is written when the editor starts: the screen is cleared, and
/// the cursor goes to the top left corner as a blinking block.
pub open spec fn start_bytes() -> Seq<u8> {
    clear_all_bytes() + goto_bytes(1, 1) + blinking_block_bytes()
}

/// What is written when the editor ends: the screen is cleared, and the
/// cursor goes to the top left corner, shown, as a blinking block.
pub open spec fn finish_bytes() -> Seq<u8> {
    clear_all_bytes() + goto_bytes(1, 1) + show_bytes() + blinking_block_bytes()
}

/// What is written for the terminal's cursor memory.
pub open spec fn memo_bytes(memo: Memo) -> Seq<u8> {
    match memo {
        Memo::Keep => Seq::empty(),
        Memo::Save => save_bytes(),
        Memo::Restore => restore_bytes(),
    }
}

/// What is written for the first `count` rows from row `first_row` on:
/// each row from the left edge of its screen line, the first of them on
/// the first line.
pub open spec fn rows_bytes(window: EditorModel, first_row: int, count: int) -> Seq<u8>
    decreases count,
{
    if count <= 0 {
        Seq::empty()
    } else {
        rows_bytes(window, first_row, count - 1) + goto_bytes(1, count as u16) + row_text(
            window,
            first_row + count - 1,
        )
    }
}

impl ViaModel {
    /// How many rows are drawn when all the rows on the screen are: as
    /// many as the screen has lines and the window has rows, and no
    /// more than the window has from the top row on.
    pub open spec fn rows_on_screen(self, term_rows: int) -> int {
        least(
            least(self.editor.lines.len() as int, term_rows),
            self.editor.lines.len() - self.first_row + 1,
        )
    }

    /// What is written to draw again what `redraw` names; `None` where
    /// the screen has no line for it.
    pub open spec fn redraw_bytes(self, redraw: Redraw, term_rows: int) -> Option<Seq<u8>> {
        let e = self.editor;
        match redraw {
            Redraw::Nothing => Some(Seq::empty()),
            Redraw::Row => Some(clear_line_bytes() + row_text(e, e.row)),
            Redraw::RowFromEdge => Some(seq![CARRIAGE_RETURN] + row_text(e, e.row)),
            Redraw::RowFromStart => match screen_line(e.row, self.first_row) {
                Some(line) => Some(clear_line_bytes() + goto_bytes(1, line) + row_text(e, e.row)),
                None => None,
            },
            Redraw::Command => Some(clear_line_bytes() + row_text(self.cmd, self.cmd.row)),
            Redraw::Everything => if 1 <= self.rows_on_screen(term_rows) <= u16::MAX {
                Some(rows_bytes(e, self.first_row, self.rows_on_screen(term_rows)))
            } else {
                None
            },
        }
    }

    /// What is written to put the terminal's cursor where the window's
    /// is, as a blinking block in normal mode and as a blinking bar in the
    /// other modes; `None` where the screen has no place for it.
    pub open spec fn cursor_bytes(self) -> Option<Seq<u8>> {
        match (screen_column(self.editor.col), screen_line(self.editor.row, self.first_row)) {
            (Some(x), Some(y)) => Some(
                goto_bytes(x, y) + (if self.mode == Mode::Normal {
                    blinking_block_bytes()
                } else {
                    blinking_bar_bytes()
                }),
            ),
            _ => None,
        }
    }

    /// What is written to the terminal after an event to which the
    /// editor reacted with `reaction`: what the cursor memory asks for,
    /// what is to be drawn again and, where the editor goes on, the
    /// cursor. `None` where the screen has no place for one of them.
    pub open spec fn frame(self, reaction: Reaction, term_rows: int) -> Option<Seq<u8>> {
        match self.redraw_bytes(reaction.redraw, term_rows) {
            None => None,
            Some(drawn) => if reaction.stop == Stop::Continue {
                match self.cursor_bytes() {
                    None => None,
                    Some(cursor) => Some(memo_bytes(reaction.memo) + drawn + cursor),
                }
            } else {
                Some(memo_bytes(reaction.memo) + drawn)
            },
        }
    }
}

/// The bytes that are written when the editor starts.
pub fn start() -> (out: Vec<u8>)
    ensures
        out@ == start_bytes(),
{
    let mut out = clear_all();
    let to_corner = goto(1, 1);
    append_bytes(&mut out, to_corner.as_slice());
    let block = blinking_block();
    append_bytes(&mut out, block.as_slice());
    out
}

/// The bytes that are written when the editor ends.
pub fn finish() -> (out: Vec<u8>)
    ensures
        out@ == finish_bytes(),
{
    let mut out = clear_all();
    let to_corner = goto(1, 1);
    append_bytes(&mut out, to_corner.as_slice());
    let show = show_cursor();
    append_bytes(&mut out, show.as_slice());
    let block = blinking_block();
    append_bytes(&mut out, block.as_slice());
    out
}

/// The screen line of row `row` when row `first_row` is at the top.
fn line_on_screen(row: usize, first_row: usize) -> (line: Option<u16>)
    ensures
        line == screen_line(row as int, first_row as int),
{
    if 1 <= first_row && first_row <= row && row - first_row < 0xffff {
        Some((row - first_row + 1) as u16)
    } else {
        None
    }
}

/// Appends the cursor's row of `window` to `out`.
fn put_row(out: &mut Vec<u8>, window: &mut Editor, row: usize)
    requires
        old(window).wf(),
        1 <= row <= old(window)@.lines.len(),
    ensures
        final(window).wf(),
        final(window)@ == old(window)@,
        final(window).path() == old(window).path(),
        final(out)@ == old(out)@ + row_text(old(window)@, row as int),
{
    let text = window.text_line(row);
    append_bytes(out, text);
}

/// Appends to `out` what is written for the first `count` rows of
/// `window` from row `first_row` on.
fn put_rows(out: &mut Vec<u8>, window: &mut Editor, first_row: usize, count: u16)
    requires
        old(window).wf(),
        1 <= first_row,
        first_row + count <= old(window)@.lines.len() + 1,
    ensures
        final(window).wf(),
        final(window)@ == old(window)@,
        final(window).path() == old(window).path(),
        final(out)@ == old(out)@ + rows_bytes(old(window)@, first_row as int, count as int),
{
    let mut done: u16 = 0;
    proof {
        lemma_wf_lines(window@);
        assert(out@ =~= old(out)@ + rows_bytes(window@, first_row as int, 0));
    }
    while done < count
        invariant
            done <= count,
            window.wf(),
            window@ == old(window)@,
            window.path() == old(window).path(),
            1 <= first_row,
            first_row + count <= window@.lines.len() + 1,
            window@.lines.len() < usize::MAX,
            out@ == old(out)@ + rows_bytes(window@, first_row as int, done as int),
        decreases count - done,
    {
        done = done + 1;
        let to_line = goto(1, done);
        append_bytes(out, to_line.as_slice());
        put_row(out, window, first_row + (done as usize - 1));
        proof {
            assert(out@ =~= old(out)@ + rows_bytes(window@, first_row as int, done as int));
        }
    }
}

/// Appends to `out` what is written to draw again what `redraw` names;
/// gives back whether the screen has a line for it.
fn put_redraw(out: &mut Vec<u8>, program: &mut Via, redraw: Redraw, term_rows: usize) -> (drawn: bool)
    requires
        old(program).wf(),
    ensures
        final(program).wf(),
        final(program)@ == old(program)@,
        match old(program)@.redraw_bytes(redraw, term_rows as int) {
            Some(bytes) => drawn && final(out)@ == old(out)@ + bytes,
            None => !drawn,
        },
{
    let first_row: usize = program.first_row();
    let row: usize = program.editor().row();
    proof {
        lemma_wf_lines(program@.editor);
        lemma_wf_lines(program@.cmd);
    }
    match redraw {
        Redraw::Nothing => {
            proof {
                assert(out@ =~= old(out)@ + Seq::<u8>::empty());
            }
            true
        },
        Redraw::Row => {
            let clear = clear_line();
            append_bytes(out, clear.as_slice());
            put_row(out, program.editor_mut(), row);
            proof {
                assert(out@ =~= old(out)@ + (clear_line_bytes() + row_text(
                    old(program)@.editor,
                    row as int,
                )));
            }
            true
        },
        Redraw::RowFromEdge => {
            out.push(CARRIAGE_RETURN);
            put_row(out, program.editor_mut(), row);
            proof {
                assert(out@ =~= old(out)@ + (seq![CARRIAGE_RETURN] + row_text(
                    old(program)@.editor,
                    row as int,
                )));
            }
            true
        },
        Redraw::RowFromStart => {
            match line_on_screen(row, first_row) {
                Some(line) => {
                    let clear = clear_line();
                    append_bytes(out, clear.as_slice());
                    let to_line = goto(1, line);
                    append_bytes(out, to_line.as_slice());
                    put_row(out, program.editor_mut(), row);
                    proof {
                        assert(out@ =~= old(out)@ + (clear_line_bytes() + goto_bytes(1, line)
                            + row_text(old(program)@.editor, row as int)));
                    }
                    true
                },
                None => false,
            }
        },
        Redraw::Command => {
            let cmd_row: usize = program.cmd_editor().row();
            let clear = clear_line();
            append_bytes(out, clear.as_slice());
            put_row(out, program.cmd_editor_mut(), cmd_row);
            proof {
                assert(out@ =~= old(out)@ + (clear_line_bytes() + row_text(
                    old(program)@.cmd,
                    cmd_row as int,
                )));
            }
            true
        },
        Redraw::Everything => {
            let rows: usize = program.editor().num_lines();
            let on_screen: usize = if rows < term_rows {
                rows
            } else {
                term_rows
            };
            if first_row > rows {
                return false;
            }
            let from_top: usize = rows - first_row + 1;
            let count: usize = if on_screen < from_top {
                on_screen
            } else {
                from_top
            };
            if count < 1 || count > 0xffff {
                return false;
            }
            put_rows(out, program.editor_mut(), first_row, count as u16);
            true
        },
    }
}

/// Appends to `out` what is written to put the terminal's cursor where
/// the window's is; gives back whether the screen has a place for it.
fn put_cursor(out: &mut Vec<u8>, program: &Via) -> (placed: bool)
    requires
        program.wf(),
    ensures
        match program@.cursor_bytes() {
            Some(bytes) => placed && final(out)@ == old(out)@ + bytes,
            None => !placed,
        },
{
    proof {
        lemma_wf_lines(program@.editor);
    }
    let col: usize = program.editor().col();
    if col > 0xffff {
        return false;
    }
    match line_on_screen(program.editor().row(), program.first_row()) {
        Some(line) => {
            let to_cursor = goto(col as u16, line);
            append_bytes(out, to_cursor.as_slice());
            let shape = match program.mode() {
                Mode::Normal => blinking_block(),
                _ => blinking_bar(),
            };
            append_bytes(out, shape.as_slice());
            proof {
                assert(out@ =~= old(out)@ + (goto_bytes(col as u16, line) + shape@));
            }
            true
        },
        None => false,
    }
}

/// The bytes that are written to the terminal after an event to which
/// the editor reacted with `reaction`, on a screen of `term_rows` rows.
///
/// Fails with [`Error::OutOfRange`] where the screen has no place for
/// what is to be drawn: where a row above the top row or beyond the
/// screen's last possible line is to be drawn, or no row at all.
pub fn frame(program: &mut Via, reaction: Reaction, term_rows: usize) -> (out: Result<Vec<u8>, Error>)
    requires
        old(program).wf(),
    ensures
        final(program).wf(),
        final(program)@ == old(program)@,
        match old(program)@.frame(reaction, term_rows as int) {
            Some(bytes) => out is Ok && out->Ok_0@ == bytes,
            None => out == Err::<Vec<u8>, Error>(Error::OutOfRange),
        },
{
    let mut bytes: Vec<u8> = match reaction.memo {
        Memo::Keep => Vec::new(),
        Memo::Save => save_cursor(),
        Memo::Restore => restore_cursor(),
    };
    if !put_redraw(&mut bytes, program, reaction.redraw, term_rows) {
        return Err(Error::OutOfRange);
    }
    match reaction.stop {
        Stop::Continue => {
            if !put_cursor(&mut bytes, program) {
                return Err(Error::OutOfRange);
            }
            proof {
                let d = old(program)@.redraw_bytes(reaction.redraw, term_rows as int)->0;
                let c = old(program)@.cursor_bytes()->0;
                assert(bytes@ =~= memo_bytes(reaction.memo) + d + c);
            }
        },
        _ => {},
    }
    Ok(bytes)
}

} // verus!

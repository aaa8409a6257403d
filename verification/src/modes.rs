//! The modes of the editor and what a key does in each of them.
//!
//! The terminal is not touched here. An event comes in, the windows and
//! the mode change, and a [`Reaction`] says what the terminal has to be
//! told: what to draw again, whether to write the file, whether to stop.

use vstd::prelude::*;
use vstd::string::StringExecFns;
use vstd::utf8::encode_utf8;
use crate::editor::Editor;
use crate::editor_laws::lemma_wf_lines;
use crate::editor_model::EditorModel;
use crate::options::ViaOptions;

verus! {

/// The mode that decides what a key does.
#[derive(Clone, Copy, Debug, PartialEq, Eq, Structural)]
pub enum Mode {
    /// Keys move the cursor and give commands.
    Normal,
    /// Keys type text.
    Insert,
    /// Keys type a command on the command line.
    CommandLine,
}

/// A key press.
#[derive(Debug)]
pub enum Key {
    /// Backspace.
    Backspace,
    /// Left arrow.
    Left,
    /// Right arrow.
    Right,
    /// Up arrow.
    Up,
    /// Down arrow.
    Down,
    /// Home key.
    Home,
    /// End key.
    End,
    /// Delete key.
    Delete,
    /// Esc key.
    Esc,
    /// A character, as the text that it types.
    Char(String),
    /// Any other key.
    Other,
}

/// What the terminal reports.
#[derive(Debug)]
pub enum Event {
    /// A key was pressed.
    Key(Key),
    /// A mouse button was pressed at column `x`, row `y` of the screen,
    /// both counted from 1.
    MousePress {
        /// The column.
        x: usize,
        /// The row.
        y: usize,
    },
    /// Anything else.
    Other,
}

/// Why a key could not do what it stands for.
#[derive(Clone, Copy, Debug, PartialEq, Eq, Structural)]
pub enum Refusal {
    /// The command line holds no command that is known.
    UnknownCommand,
    /// The file was to be written, and has no name.
    NoFileName,
    /// The editor was to quit, and the document has changes.
    UnsavedChanges,
    /// There is nothing to delete at the cursor.
    NothingToDelete,
    /// The document cannot take more text.
    NoRoom,
}

/// Whether the editor goes on.
#[derive(Clone, Copy, Debug, PartialEq, Eq, Structural)]
pub enum Stop {
    /// It waits for the next event.
    Continue,
    /// It quits.
    Quit,
    /// It cannot go on.
    Refused(Refusal),
}

/// What the terminal has to do about its own cursor memory.
#[derive(Clone, Copy, Debug, PartialEq, Eq, Structural)]
pub enum Memo {
    /// Nothing.
    Keep,
    /// Remember where the cursor is.
    Save,
    /// Put the cursor back where it was remembered.
    Restore,
}

/// What has to be drawn again.
#[derive(Clone, Copy, Debug, PartialEq, Eq, Structural)]
pub enum Redraw {
    /// Nothing.
    Nothing,
    /// The screen line is cleared, and the cursor's row is written where
    /// the terminal's cursor stands.
    Row,
    /// The cursor's row is written from the left edge of the screen.
    RowFromEdge,
    /// The screen line is cleared, and the cursor's row is written from
    /// the left edge of its screen line.
    RowFromStart,
    /// The screen line is cleared, and the command line is written
    /// where the terminal's cursor stands.
    Command,
    /// All the rows on the screen.
    Everything,
}

/// What the terminal has to be told after an event.
#[derive(Clone, Copy, Debug, PartialEq, Eq, Structural)]
pub struct Reaction {
    /// Whether the editor goes on.
    pub stop: Stop,
    /// What to do about the terminal's cursor memory.
    pub memo: Memo,
    /// What to draw again.
    pub redraw: Redraw,
    /// Whether the document is to be written to the file.
    pub save: bool,
}

impl Reaction {
    /// Nothing to tell.
    pub open spec fn quiet() -> Reaction {
        Reaction { stop: Stop::Continue, memo: Memo::Keep, redraw: Redraw::Nothing, save: false }
    }

    /// Only something to draw.
    pub open spec fn draw(redraw: Redraw) -> Reaction {
        Reaction { redraw, ..Self::quiet() }
    }

    /// Only a refusal.
    pub open spec fn refuse(refusal: Refusal) -> Reaction {
        Reaction { stop: Stop::Refused(refusal), ..Self::quiet() }
    }

    /// Only the end.
    pub open spec fn quit() -> Reaction {
        Reaction { stop: Stop::Quit, ..Self::quiet() }
    }
}

/// The byte of the key that moves the cursor left in normal mode: `h`.
pub const KEY_LEFT: u8 = 104;

/// The byte of the key that moves the cursor down in normal mode: `j`.
pub const KEY_DOWN: u8 = 106;

/// The byte of the key that moves the cursor up in normal mode: `k`.
pub const KEY_UP: u8 = 107;

/// The byte of the key that moves the cursor right in normal mode: `l`.
pub const KEY_RIGHT: u8 = 108;

/// The byte of the Enter key: a newline.
pub const KEY_ENTER: u8 = 10;

/// The byte of the key that goes to insert mode at the cursor: `i`.
pub const KEY_INSERT: u8 = 105;

/// The byte of the key that goes to insert mode behind the cursor: `a`.
pub const KEY_APPEND: u8 = 97;

/// The byte of the key that goes to insert mode at the end of the row:
/// `A`.
pub const KEY_APPEND_TO_ROW: u8 = 65;

/// The byte of the key that opens a row below the cursor's: `o`.
pub const KEY_OPEN_BELOW: u8 = 111;

/// The byte of the key that opens a row above the cursor's: `O`.
pub const KEY_OPEN_ABOVE: u8 = 79;

/// The byte of the key that opens the command line: `:`.
pub const KEY_COMMAND: u8 = 58;

/// The byte of the key that goes to the last byte of the row: `$`.
pub const KEY_ROW_END: u8 = 36;

/// The byte of the key that goes to the first byte of the row: `0`.
pub const KEY_ROW_START: u8 = 48;

/// The bytes that a key types, if it types any.
pub open spec fn typed(key: Key) -> Option<Seq<u8>> {
    match key {
        Key::Char(text) => Some(encode_utf8(text@)),
        _ => None,
    }
}

/// The key types the one byte `byte`.
pub open spec fn types(key: Key, byte: u8) -> bool {
    typed(key) == Some(seq![byte])
}

/// The bytes of a newline, as the editor types them.
pub open spec fn newline_text() -> Seq<u8> {
    encode_utf8("\n"@)
}

/// The bytes of the colon that begins a command.
pub open spec fn colon_text() -> Seq<u8> {
    encode_utf8(":"@)
}

/// The state of the editor: its window, its command line, its mode, and
/// the row that is shown at the top of the screen.
pub struct ViaModel {
    /// The window on the file.
    pub editor: EditorModel,
    /// The window that is the command line.
    pub cmd: EditorModel,
    /// The mode.
    pub mode: Mode,
    /// The row of the window that is shown at the top of the screen.
    pub first_row: int,
    /// Whether the file has a name.
    pub named: bool,
}

impl ViaModel {
    /// Both windows are well formed.
    pub open spec fn wf(self) -> bool {
        &&& self.editor.wf()
        &&& self.cmd.wf()
        &&& 1 <= self.first_row
    }

    /// The window with the cursor taken back from behind the last byte
    /// of its row.
    pub open spec fn settled(editor: EditorModel) -> EditorModel {
        if editor.col - 1 == editor.lines[editor.row - 1] {
            editor.left(1)
        } else {
            editor
        }
    }

    /// The top row after a step down from the cursor's row: the screen
    /// moves by one row when the cursor stands right below it.
    pub open spec fn scrolled(self, term_rows: int) -> int {
        if self.first_row + term_rows == self.editor.row {
            self.first_row + 1
        } else {
            self.first_row
        }
    }

    /// The window changed to `editor`, and nothing to tell.
    pub open spec fn moved(self, editor: EditorModel) -> (ViaModel, Reaction) {
        (ViaModel { editor, ..self }, Reaction::quiet())
    }

    /// What the Delete key does in the window. Where the cursor stands
    /// before the last byte of its row, the editor ends in the last row,
    /// and in another row the text from the cursor up to the next row
    /// is deleted. Elsewhere the byte at the cursor is deleted, if there
    /// is one.
    pub open spec fn delete_key(self) -> (ViaModel, Reaction) {
        let e = self.editor;
        let at_line_end = e.col == e.lines[e.row - 1];
        if at_line_end && e.row == e.lines.len() {
            (self, Reaction::quit())
        } else if at_line_end {
            (
                ViaModel { editor: e.delete_text(e.row + 1, 1), ..self },
                Reaction::draw(Redraw::Everything),
            )
        } else if e.can_delete(e.row as int, e.col + 1) {
            (
                ViaModel { editor: e.delete_text(e.row as int, e.col + 1), ..self },
                Reaction::draw(Redraw::Row),
            )
        } else {
            (self, Reaction::refuse(Refusal::NothingToDelete))
        }
    }

    /// What a newline typed into the window does: it is inserted at the
    /// cursor, where there is room for it.
    pub open spec fn break_line(self, editor: EditorModel, then_up: bool) -> (ViaModel, Reaction) {
        if newline_text().len() > editor.room() {
            (ViaModel { editor, ..self }, Reaction::refuse(Refusal::NoRoom))
        } else {
            let broken = editor.add_text(newline_text());
            (
                ViaModel {
                    editor: if then_up {
                        broken.up(1)
                    } else {
                        broken
                    },
                    mode: Mode::Insert,
                    ..self
                },
                Reaction::draw(Redraw::Everything),
            )
        }
    }

    /// What a key does in normal mode.
    pub open spec fn normal_key(self, key: Key, term_rows: int) -> (ViaModel, Reaction) {
        let e = self.editor;
        if types(key, KEY_LEFT) || key is Left || key is Backspace {
            self.moved(e.left(1))
        } else if types(key, KEY_DOWN) || key is Down {
            (
                ViaModel {
                    editor: Self::settled(e.down(1)),
                    first_row: self.scrolled(term_rows),
                    ..self
                },
                Reaction::quiet(),
            )
        } else if types(key, KEY_ENTER) {
            (
                ViaModel {
                    editor: if e.row != e.lines.len() {
                        e.goto(e.row + 1, 1)
                    } else {
                        e
                    },
                    first_row: self.scrolled(term_rows),
                    ..self
                },
                Reaction::quiet(),
            )
        } else if types(key, KEY_UP) || key is Up {
            self.moved(Self::settled(e.up(1)))
        } else if types(key, KEY_RIGHT) || key is Right {
            if e.col < e.lines[e.row - 1] {
                self.moved(e.right(1))
            } else {
                (self, Reaction::quiet())
            }
        } else if types(key, KEY_INSERT) {
            (ViaModel { mode: Mode::Insert, ..self }, Reaction::quiet())
        } else if types(key, KEY_APPEND) {
            (ViaModel { editor: e.right(1), mode: Mode::Insert, ..self }, Reaction::quiet())
        } else if types(key, KEY_OPEN_BELOW) {
            self.break_line(e.goto_last_col(), false)
        } else if types(key, KEY_OPEN_ABOVE) {
            self.break_line(e.goto_col(0), true)
        } else if types(key, KEY_COMMAND) {
            let cleared = self.cmd.delete_all();
            if colon_text().len() > cleared.room() {
                (ViaModel { cmd: cleared, ..self }, Reaction::refuse(Refusal::NoRoom))
            } else {
                (
                    ViaModel {
                        cmd: cleared.add_text(colon_text()),
                        mode: Mode::CommandLine,
                        ..self
                    },
                    Reaction { memo: Memo::Save, ..Reaction::quiet() },
                )
            }
        } else if types(key, KEY_ROW_END) {
            self.moved(e.goto_last_col().left(1))
        } else if types(key, KEY_ROW_START) {
            self.moved(e.goto_col(0))
        } else if types(key, KEY_APPEND_TO_ROW) {
            (ViaModel { editor: e.goto_last_col(), mode: Mode::Insert, ..self }, Reaction::quiet())
        } else if key is Delete {
            self.delete_key()
        } else if key is Home {
            self.moved(e.goto_col(0))
        } else if key is End {
            self.moved(e.goto_last_col())
        } else {
            (self, Reaction::quiet())
        }
    }

    /// What a key does in insert mode.
    pub open spec fn insert_key(self, key: Key) -> (ViaModel, Reaction) {
        let e = self.editor;
        match key {
            Key::Char(text) => {
                let bytes = encode_utf8(text@);
                if bytes.len() > e.room() {
                    (self, Reaction::refuse(Refusal::NoRoom))
                } else {
                    (
                        ViaModel { editor: e.add_text(bytes), ..self },
                        Reaction::draw(
                            if bytes == seq![KEY_ENTER] {
                                Redraw::Everything
                            } else {
                                Redraw::RowFromEdge
                            },
                        ),
                    )
                }
            },
            Key::Left => self.moved(e.left(1)),
            Key::Down => self.moved(e.down(1)),
            Key::Up => self.moved(e.up(1)),
            Key::Right => self.moved(e.right(1)),
            Key::Backspace => {
                if e.row == 1 && e.col == 1 {
                    (self, Reaction::quiet())
                } else if e.col == 1 {
                    let above = e.up(1).goto_last_col();
                    (
                        ViaModel { editor: above.delete_text(above.row + 1, 1), ..self },
                        Reaction::draw(Redraw::Everything),
                    )
                } else {
                    let before = e.left(1);
                    (
                        ViaModel {
                            editor: before.delete_text(before.row as int, before.col + 1),
                            ..self
                        },
                        Reaction::draw(Redraw::RowFromStart),
                    )
                }
            },
            Key::Delete => self.delete_key(),
            Key::Home => self.moved(e.goto_col(0)),
            Key::End => self.moved(e.goto_last_col()),
            _ => (self, Reaction::quiet()),
        }
    }

    /// What the command on the command line asks for: to write the file
    /// (`:wq` and `x`), and to quit whatever has changed (`:q!`).
    /// `None` where the command is not known; `:q` is the third known
    /// command.
    pub open spec fn command(text: Seq<u8>) -> Option<(bool, bool)> {
        if text == seq![58u8, 119u8, 113u8] || text == seq![120u8] {
            Some((true, false))
        } else if text == seq![58u8, 113u8] {
            Some((false, false))
        } else if text == seq![58u8, 113u8, 33u8] {
            Some((false, true))
        } else {
            None
        }
    }

    /// What the Enter key does on the command line: the command is
    /// carried out. A command that writes the file needs the file to have
    /// a name; every known command then quits, which only `:q!` does
    /// where the document has changes.
    pub open spec fn run_command(self) -> (ViaModel, Reaction) {
        match Self::command(self.cmd.table.doc()) {
            None => (self, Reaction::refuse(Refusal::UnknownCommand)),
            Some((write, skip_write)) => {
                if write && !self.named {
                    (self, Reaction::refuse(Refusal::NoFileName))
                } else if self.editor.table.history.len() == 0 || skip_write {
                    (self, Reaction { save: write, ..Reaction::quit() })
                } else {
                    (self, Reaction { save: write, ..Reaction::refuse(Refusal::UnsavedChanges) })
                }
            },
        }
    }

    /// What a key does in command-line mode.
    pub open spec fn command_key(self, key: Key) -> (ViaModel, Reaction) {
        let c = self.cmd;
        match key {
            Key::Char(text) => {
                let bytes = encode_utf8(text@);
                if bytes == seq![KEY_ENTER] {
                    self.run_command()
                } else if bytes.len() > c.room() {
                    (self, Reaction::refuse(Refusal::NoRoom))
                } else {
                    (ViaModel { cmd: c.add_text(bytes), ..self }, Reaction::quiet())
                }
            },
            Key::Left => (ViaModel { cmd: c.left(1), ..self }, Reaction::quiet()),
            Key::Right => (ViaModel { cmd: c.right(1), ..self }, Reaction::quiet()),
            Key::Backspace => {
                if c.col != 1 {
                    let before = c.left(1);
                    (
                        ViaModel {
                            cmd: before.delete_text(before.row as int, before.col + 1),
                            ..self
                        },
                        Reaction::quiet(),
                    )
                } else {
                    (self, Reaction::quiet())
                }
            },
            Key::Delete => {
                if c.col != c.lines[c.row - 1] && c.can_delete(c.row as int, c.col + 1) {
                    (
                        ViaModel { cmd: c.delete_text(c.row as int, c.col + 1), ..self },
                        Reaction::draw(Redraw::Command),
                    )
                } else if c.col != c.lines[c.row - 1] {
                    (self, Reaction::refuse(Refusal::NothingToDelete))
                } else {
                    (self, Reaction::quiet())
                }
            },
            Key::Home => (ViaModel { cmd: c.goto_col(0), ..self }, Reaction::quiet()),
            Key::End => (ViaModel { cmd: c.goto_last_col(), ..self }, Reaction::quiet()),
            _ => (self, Reaction::quiet()),
        }
    }

    /// What the Esc key does: it leads back to normal mode. From the
    /// command line the terminal's cursor goes back to where it was; from
    /// insert mode the cursor takes a step to the left.
    pub open spec fn escape(self) -> (ViaModel, Reaction) {
        match self.mode {
            Mode::CommandLine => (
                ViaModel { mode: Mode::Normal, ..self },
                Reaction { memo: Memo::Restore, ..Reaction::quiet() },
            ),
            Mode::Insert => (
                ViaModel { editor: self.editor.left(1), mode: Mode::Normal, ..self },
                Reaction::quiet(),
            ),
            Mode::Normal => (self, Reaction::quiet()),
        }
    }

    /// What a press of a mouse button does: the cursor goes to the row
    /// and the column of the press, no further right than the last byte
    /// of the row that it comes from, and the mode is normal mode.
    pub open spec fn mouse_press(self, x: int, y: int) -> (ViaModel, Reaction) {
        let e = self.editor;
        let col = if x < e.lines[e.row - 1] {
            x
        } else {
            e.lines[e.row - 1]
        };
        (ViaModel { editor: e.goto(y, col), mode: Mode::Normal, ..self }, Reaction::quiet())
    }

    /// What an event does, on a screen of `term_rows` rows.
    pub open spec fn step(self, event: Event, term_rows: int) -> (ViaModel, Reaction) {
        match event {
            Event::Key(key) => {
                if key is Esc {
                    self.escape()
                } else {
                    match self.mode {
                        Mode::Normal => self.normal_key(key, term_rows),
                        Mode::Insert => self.insert_key(key),
                        Mode::CommandLine => self.command_key(key),
                    }
                }
            },
            Event::MousePress { x, y } => self.mouse_press(x as int, y as int),
            Event::Other => (self, Reaction::quiet()),
        }
    }
}

/// Whether `text` types the one byte `byte`.
fn is_byte(text: &String, byte: u8) -> (is: bool)
    ensures
        is == (encode_utf8(text@) == seq![byte]),
{
    let bytes = text.as_str().as_bytes();
    let is = bytes.len() == 1 && bytes[0] == byte;
    proof {
        if is {
            assert(bytes@ =~= seq![byte]);
        }
    }
    is
}

/// Whether `key` types the one byte `byte`.
fn key_types(key: &Key, byte: u8) -> (is: bool)
    ensures
        is == types(*key, byte),
{
    match key {
        Key::Char(text) => is_byte(text, byte),
        _ => false,
    }
}

/// What the command `text` asks for.
fn parse_command(text: &[u8]) -> (command: Option<(bool, bool)>)
    ensures
        command == ViaModel::command(text@),
{
    let n: usize = text.len();
    if n == 3 && text[0] == 58 && text[1] == 119 && text[2] == 113 {
        assert(text@ =~= seq![58u8, 119u8, 113u8]);
        Some((true, false))
    } else if n == 1 && text[0] == 120 {
        assert(text@ =~= seq![120u8]);
        Some((true, false))
    } else if n == 2 && text[0] == 58 && text[1] == 113 {
        assert(text@ =~= seq![58u8, 113u8]);
        Some((false, false))
    } else if n == 3 && text[0] == 58 && text[1] == 113 && text[2] == 33 {
        assert(text@ =~= seq![58u8, 113u8, 33u8]);
        Some((false, true))
    } else {
        proof {
            let a = seq![58u8, 119u8, 113u8];
            let b = seq![120u8];
            let c = seq![58u8, 113u8];
            let d = seq![58u8, 113u8, 33u8];
            assert(a.len() == 3 && a[0] == 58 && a[1] == 119 && a[2] == 113);
            assert(b.len() == 1 && b[0] == 120);
            assert(c.len() == 2 && c[0] == 58 && c[1] == 113);
            assert(d.len() == 3 && d[0] == 58 && d[1] == 113 && d[2] == 33);
        }
        None
    }
}

/// Nothing to tell.
fn quiet() -> (reaction: Reaction)
    ensures
        reaction == Reaction::quiet(),
{
    Reaction { stop: Stop::Continue, memo: Memo::Keep, redraw: Redraw::Nothing, save: false }
}

/// Only something to draw.
fn draw(redraw: Redraw) -> (reaction: Reaction)
    ensures
        reaction == Reaction::draw(redraw),
{
    Reaction { stop: Stop::Continue, memo: Memo::Keep, redraw, save: false }
}

/// Only a refusal.
fn refuse(refusal: Refusal) -> (reaction: Reaction)
    ensures
        reaction == Reaction::refuse(refusal),
{
    Reaction {
        stop: Stop::Refused(refusal),
        memo: Memo::Keep,
        redraw: Redraw::Nothing,
        save: false,
    }
}

/// Takes the cursor of `editor` back from behind the last byte of its
/// row.
fn settle(editor: &mut Editor)
    requires
        old(editor).wf(),
    ensures
        final(editor).wf(),
        final(editor)@ == ViaModel::settled(old(editor)@),
        final(editor).path() == old(editor).path(),
{
    if editor.col() - 1 == editor.line_len(editor.row()) {
        editor.left(1);
    }
}

/// Deletes the byte behind the cursor of `editor`, if there is one.
fn delete_next(editor: &mut Editor) -> (deleted: bool)
    requires
        old(editor).wf(),
    ensures
        final(editor).wf(),
        final(editor).path() == old(editor).path(),
        deleted == old(editor)@.can_delete(old(editor)@.row, old(editor)@.col + 1),
        deleted ==> final(editor)@ == old(editor)@.delete_text(
            old(editor)@.row,
            old(editor)@.col + 1,
        ),
        !deleted ==> final(editor)@ == old(editor)@,
{
    proof {
        lemma_wf_lines(editor@);
    }
    let row: usize = editor.row();
    let col: usize = editor.col();
    if col <= editor.line_len(row) {
        let _ = editor.delete_text(row, col + 1);
        true
    } else {
        false
    }
}

/// The editor: a window on the file, a command line, and the mode.
pub struct Via {
    /// The window on the file.
    editor: Editor,
    /// The window that is the command line.
    cmd_editor: Editor,
    /// Configured options.
    options: ViaOptions,
    /// The mode.
    mode: Mode,
    /// The row of the window that is shown at the top of the screen.
    first_row: usize,
}

impl View for Via {
    type V = ViaModel;

    closed spec fn view(&self) -> ViaModel {
        ViaModel {
            editor: self.editor@,
            cmd: self.cmd_editor@,
            mode: self.mode,
            first_row: self.first_row as int,
            named: self.editor.path().len() > 0,
        }
    }
}

impl Via {
    /// The parts are ones that the operations can work on.
    pub closed spec fn consistent(&self) -> bool {
        &&& self.editor.wf()
        &&& self.cmd_editor.wf()
    }

    /// The editor is one that events can be handed to.
    pub open spec fn wf(&self) -> bool {
        &&& self.consistent()
        &&& self@.wf()
    }

    /// An editor in normal mode on the file at `file_path` whose bytes
    /// are `source`, with an empty command line.
    pub fn new(file_path: String, source: Vec<u8>, options: ViaOptions) -> (made: Via)
        requires
            source@.len() < usize::MAX - 1,
        ensures
            made.wf(),
            made@.editor == EditorModel::open(source@),
            made@.cmd == EditorModel::open(Seq::<u8>::empty()),
            made@.mode == Mode::Normal,
            made@.first_row == 1,
            made@.named == (file_path@.len() > 0),
            made.options_spec() == options,
    {
        Via {
            editor: Editor::new(file_path, source),
            cmd_editor: Editor::new(String::new(), Vec::new()),
            options,
            mode: Mode::Normal,
            first_row: 1,
        }
    }

    /// What the Delete key does in the window.
    fn delete_key(&mut self) -> (reaction: Reaction)
        requires
            old(self).wf(),
        ensures
            final(self).wf(),
            (final(self)@, reaction) == old(self)@.delete_key(),
    {
        proof {
            lemma_wf_lines(self.editor@);
        }
        let row: usize = self.editor.row();
        let at_line_end: bool = self.editor.col() == self.editor.num_cols(row);
        if at_line_end && row == self.editor.num_lines() {
            Reaction { stop: Stop::Quit, memo: Memo::Keep, redraw: Redraw::Nothing, save: false }
        } else if at_line_end {
            let _ = self.editor.delete_text(row + 1, 1);
            draw(Redraw::Everything)
        } else if delete_next(&mut self.editor) {
            draw(Redraw::Row)
        } else {
            refuse(Refusal::NothingToDelete)
        }
    }

    /// Types a newline into the window and goes to insert mode.
    fn break_line(&mut self, then_up: bool) -> (reaction: Reaction)
        requires
            old(self).wf(),
        ensures
            final(self).wf(),
            (final(self)@, reaction) == old(self)@.break_line(old(self)@.editor, then_up),
    {
        let newline = String::from_str("\n");
        if newline.as_str().as_bytes().len() > self.editor.room() {
            return refuse(Refusal::NoRoom);
        }
        self.editor.add_text(newline);
        if then_up {
            self.editor.up(1);
        }
        self.mode = Mode::Insert;
        draw(Redraw::Everything)
    }

    /// Moves the top row when the cursor stands right below the screen.
    fn scroll(&mut self, term_rows: usize)
        requires
            old(self).wf(),
        ensures
            final(self).wf(),
            final(self)@ == (ViaModel {
                first_row: old(self)@.scrolled(term_rows as int),
                ..old(self)@
            }),
    {
        proof {
            lemma_wf_lines(self.editor@);
        }
        let row: usize = self.editor.row();
        if term_rows <= row && self.first_row == row - term_rows {
            self.first_row = self.first_row + 1;
        }
    }

    /// Opens the command line.
    fn open_command_line(&mut self) -> (reaction: Reaction)
        requires
            old(self).wf(),
        ensures
            final(self).wf(),
            final(self)@.editor == old(self)@.editor,
            final(self)@.first_row == old(self)@.first_row,
            final(self)@.named == old(self)@.named,
            colon_text().len() > old(self)@.cmd.delete_all().room() ==> reaction
                == Reaction::refuse(Refusal::NoRoom) && final(self)@.cmd == old(
                self,
            )@.cmd.delete_all() && final(self)@.mode == old(self)@.mode,
            colon_text().len() <= old(self)@.cmd.delete_all().room() ==> reaction == (Reaction {
                memo: Memo::Save,
                ..Reaction::quiet()
            }) && final(self)@.cmd == old(self)@.cmd.delete_all().add_text(colon_text())
                && final(self)@.mode == Mode::CommandLine,
    {
        self.cmd_editor.delete_all();
        let colon = String::from_str(":");
        if colon.as_str().as_bytes().len() > self.cmd_editor.room() {
            return refuse(Refusal::NoRoom);
        }
        self.cmd_editor.add_text(colon);
        self.mode = Mode::CommandLine;
        Reaction { stop: Stop::Continue, memo: Memo::Save, redraw: Redraw::Nothing, save: false }
    }

    /// What a key does in normal mode.
    fn normal_key(&mut self, key: Key, term_rows: usize) -> (reaction: Reaction)
        requires
            old(self).wf(),
        ensures
            final(self).wf(),
            (final(self)@, reaction) == old(self)@.normal_key(key, term_rows as int),
    {
        proof {
            lemma_wf_lines(self.editor@);
        }
        if key_types(&key, KEY_LEFT) || matches!(key, Key::Left) || matches!(key, Key::Backspace) {
            self.editor.left(1);
            quiet()
        } else if key_types(&key, KEY_DOWN) || matches!(key, Key::Down) {
            self.scroll(term_rows);
            self.editor.down(1);
            settle(&mut self.editor);
            quiet()
        } else if key_types(&key, KEY_ENTER) {
            self.scroll(term_rows);
            let row: usize = self.editor.row();
            if row != self.editor.num_lines() {
                self.editor.goto(row + 1, 1);
            }
            quiet()
        } else if key_types(&key, KEY_UP) || matches!(key, Key::Up) {
            self.editor.up(1);
            settle(&mut self.editor);
            quiet()
        } else if key_types(&key, KEY_RIGHT) || matches!(key, Key::Right) {
            if self.editor.col() < self.editor.line_len(self.editor.row()) {
                self.editor.right(1);
            }
            quiet()
        } else if key_types(&key, KEY_INSERT) {
            self.mode = Mode::Insert;
            quiet()
        } else if key_types(&key, KEY_APPEND) {
            self.editor.right(1);
            self.mode = Mode::Insert;
            quiet()
        } else if key_types(&key, KEY_OPEN_BELOW) {
            self.editor.goto_last_col();
            self.break_line(false)
        } else if key_types(&key, KEY_OPEN_ABOVE) {
            self.editor.goto_col(0);
            self.break_line(true)
        } else if key_types(&key, KEY_COMMAND) {
            self.open_command_line()
        } else if key_types(&key, KEY_ROW_END) {
            self.editor.goto_last_col();
            self.editor.left(1);
            quiet()
        } else if key_types(&key, KEY_ROW_START) {
            self.editor.goto_col(0);
            quiet()
        } else if key_types(&key, KEY_APPEND_TO_ROW) {
            self.editor.goto_last_col();
            self.mode = Mode::Insert;
            quiet()
        } else if matches!(key, Key::Delete) {
            self.delete_key()
        } else if matches!(key, Key::Home) {
            self.editor.goto_col(0);
            quiet()
        } else if matches!(key, Key::End) {
            self.editor.goto_last_col();
            quiet()
        } else {
            quiet()
        }
    }

    /// What the Backspace key does in insert mode.
    fn insert_backspace(&mut self) -> (reaction: Reaction)
        requires
            old(self).wf(),
        ensures
            final(self).wf(),
            (final(self)@, reaction) == old(self)@.insert_key(Key::Backspace),
    {
        proof {
            lemma_wf_lines(self.editor@);
        }
        if self.editor.row() == 1 && self.editor.col() == 1 {
            quiet()
        } else if self.editor.col() == 1 {
            self.editor.up(1);
            self.editor.goto_last_col();
            proof {
                lemma_wf_lines(self.editor@);
            }
            let row: usize = self.editor.row();
            let _ = self.editor.delete_text(row + 1, 1);
            draw(Redraw::Everything)
        } else {
            self.editor.left(1);
            proof {
                lemma_wf_lines(self.editor@);
            }
            let row: usize = self.editor.row();
            let col: usize = self.editor.col();
            let _ = self.editor.delete_text(row, col + 1);
            draw(Redraw::RowFromStart)
        }
    }

    /// What a key does in insert mode.
    fn insert_key(&mut self, key: Key) -> (reaction: Reaction)
        requires
            old(self).wf(),
        ensures
            final(self).wf(),
            (final(self)@, reaction) == old(self)@.insert_key(key),
    {
        match key {
            Key::Char(text) => {
                if text.as_str().as_bytes().len() > self.editor.room() {
                    return refuse(Refusal::NoRoom);
                }
                let is_newline: bool = is_byte(&text, KEY_ENTER);
                self.editor.add_text(text);
                if is_newline {
                    draw(Redraw::Everything)
                } else {
                    draw(Redraw::RowFromEdge)
                }
            },
            Key::Left => {
                self.editor.left(1);
                quiet()
            },
            Key::Down => {
                self.editor.down(1);
                quiet()
            },
            Key::Up => {
                self.editor.up(1);
                quiet()
            },
            Key::Right => {
                self.editor.right(1);
                quiet()
            },
            Key::Backspace => self.insert_backspace(),
            Key::Delete => self.delete_key(),
            Key::Home => {
                self.editor.goto_col(0);
                quiet()
            },
            Key::End => {
                self.editor.goto_last_col();
                quiet()
            },
            _ => quiet(),
        }
    }

    /// Carries out the command on the command line.
    fn run_command(&mut self) -> (reaction: Reaction)
        requires
            old(self).wf(),
        ensures
            final(self).wf(),
            (final(self)@, reaction) == old(self)@.run_command(),
    {
        let command = parse_command(self.cmd_editor.text().as_slice());
        match command {
            None => refuse(Refusal::UnknownCommand),
            Some((write, skip_write)) => {
                if write && self.editor.file_path().is_empty() {
                    refuse(Refusal::NoFileName)
                } else {
                    if self.editor.text_matches() || skip_write {
                        Reaction {
                            stop: Stop::Quit,
                            memo: Memo::Keep,
                            redraw: Redraw::Nothing,
                            save: write,
                        }
                    } else {
                        Reaction {
                            stop: Stop::Refused(Refusal::UnsavedChanges),
                            memo: Memo::Keep,
                            redraw: Redraw::Nothing,
                            save: write,
                        }
                    }
                }
            },
        }
    }

    /// What a key does in command-line mode.
    fn command_key(&mut self, key: Key) -> (reaction: Reaction)
        requires
            old(self).wf(),
        ensures
            final(self).wf(),
            (final(self)@, reaction) == old(self)@.command_key(key),
    {
        proof {
            lemma_wf_lines(self.cmd_editor@);
        }
        match key {
            Key::Char(text) => {
                if is_byte(&text, KEY_ENTER) {
                    self.run_command()
                } else if text.as_str().as_bytes().len() > self.cmd_editor.room() {
                    refuse(Refusal::NoRoom)
                } else {
                    self.cmd_editor.add_text(text);
                    quiet()
                }
            },
            Key::Left => {
                self.cmd_editor.left(1);
                quiet()
            },
            Key::Right => {
                self.cmd_editor.right(1);
                quiet()
            },
            Key::Backspace => {
                if self.cmd_editor.col() != 1 {
                    self.cmd_editor.left(1);
                    proof {
                        lemma_wf_lines(self.cmd_editor@);
                    }
                    let row: usize = self.cmd_editor.row();
                    let col: usize = self.cmd_editor.col();
                    let _ = self.cmd_editor.delete_text(row, col + 1);
                }
                quiet()
            },
            Key::Delete => {
                let row: usize = self.cmd_editor.row();
                if self.cmd_editor.col() != self.cmd_editor.num_cols(row) {
                    if delete_next(&mut self.cmd_editor) {
                        draw(Redraw::Command)
                    } else {
                        refuse(Refusal::NothingToDelete)
                    }
                } else {
                    quiet()
                }
            },
            Key::Home => {
                self.cmd_editor.goto_col(0);
                quiet()
            },
            Key::End => {
                self.cmd_editor.goto_last_col();
                quiet()
            },
            _ => quiet(),
        }
    }

    /// What the Esc key does.
    fn escape(&mut self) -> (reaction: Reaction)
        requires
            old(self).wf(),
        ensures
            final(self).wf(),
            (final(self)@, reaction) == old(self)@.escape(),
    {
        match self.mode {
            Mode::CommandLine => {
                self.mode = Mode::Normal;
                Reaction {
                    stop: Stop::Continue,
                    memo: Memo::Restore,
                    redraw: Redraw::Nothing,
                    save: false,
                }
            },
            Mode::Insert => {
                self.editor.left(1);
                self.mode = Mode::Normal;
                quiet()
            },
            Mode::Normal => quiet(),
        }
    }

    /// What a press of a mouse button does.
    fn mouse_press(&mut self, x: usize, y: usize) -> (reaction: Reaction)
        requires
            old(self).wf(),
        ensures
            final(self).wf(),
            (final(self)@, reaction) == old(self)@.mouse_press(x as int, y as int),
    {
        proof {
            lemma_wf_lines(self.editor@);
        }
        let len: usize = self.editor.line_len(self.editor.row());
        let col: usize = if x < len {
            x
        } else {
            len
        };
        self.editor.goto(y, col);
        self.mode = Mode::Normal;
        quiet()
    }

    /// Takes an event from the terminal, on a screen of `term_rows`
    /// rows: the windows and the mode change as the key bindings say, and
    /// the reaction says what the terminal has to be told.
    pub fn handle(&mut self, event: Event, term_rows: usize) -> (reaction: Reaction)
        requires
            old(self).wf(),
        ensures
            final(self).wf(),
            (final(self)@, reaction) == old(self)@.step(event, term_rows as int),
    {
        match event {
            Event::Key(key) => {
                if matches!(key, Key::Esc) {
                    self.escape()
                } else {
                    match self.mode {
                        Mode::Normal => self.normal_key(key, term_rows),
                        Mode::Insert => self.insert_key(key),
                        Mode::CommandLine => self.command_key(key),
                    }
                }
            },
            Event::MousePress { x, y } => self.mouse_press(x, y),
            Event::Other => quiet(),
        }
    }

    /// The window on the file.
    pub fn editor(&self) -> (editor: &Editor)
        ensures
            editor@ == self@.editor,
            self.wf() ==> editor.wf(),
    {
        &self.editor
    }

    /// The window on the file, to work on. The window has to be well
    /// formed again when it is given back.
    pub fn editor_mut(&mut self) -> (editor: &mut Editor)
        ensures
            editor@ == old(self)@.editor,
            (editor.path().len() > 0) == old(self)@.named,
            old(self).wf() ==> editor.wf(),
            final(self)@ == (ViaModel {
                editor: final(editor)@,
                named: final(editor).path().len() > 0,
                ..old(self)@
            }),
            old(self).wf() && final(editor).wf() ==> final(self).wf(),
    {
        &mut self.editor
    }

    /// The window that is the command line, to work on. The window has
    /// to be well formed again when it is given back.
    pub fn cmd_editor_mut(&mut self) -> (editor: &mut Editor)
        ensures
            editor@ == old(self)@.cmd,
            old(self).wf() ==> editor.wf(),
            final(self)@ == (ViaModel { cmd: final(editor)@, ..old(self)@ }),
            old(self).wf() && final(editor).wf() ==> final(self).wf(),
    {
        &mut self.cmd_editor
    }

    /// The window that is the command line.
    pub fn cmd_editor(&self) -> (editor: &Editor)
        ensures
            editor@ == self@.cmd,
            self.wf() ==> editor.wf(),
    {
        &self.cmd_editor
    }

    /// The mode.
    pub fn mode(&self) -> (mode: Mode)
        ensures
            mode == self@.mode,
    {
        self.mode
    }

    /// The row of the window that is shown at the top of the screen.
    pub fn first_row(&self) -> (row: usize)
        ensures
            row == self@.first_row,
    {
        self.first_row
    }

    /// The configured options.
    pub fn options(&self) -> (options: ViaOptions)
        ensures
            options == self.options_spec(),
    {
        self.options
    }

    /// The configured options.
    pub closed spec fn options_spec(&self) -> ViaOptions {
        self.options
    }
}

} // verus!

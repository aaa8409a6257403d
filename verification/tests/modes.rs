use via::modes::{Event, Key, Memo, Mode, Reaction, Redraw, Refusal, Stop, Via};
use via::options::ViaOptions;

fn via_on(path: &str, content: &str) -> Via {
    Via::new(path.to_string(), content.as_bytes().to_vec(), ViaOptions::new())
}

fn key(text: &str) -> Event {
    Event::Key(Key::Char(text.to_string()))
}

fn type_keys(via: &mut Via, text: &str) -> Reaction {
    let mut last = QUIET;
    for c in text.chars() {
        last = via.handle(key(&c.to_string()), 24);
    }
    last
}

fn text_of(via: &mut Via) -> Vec<u8> {
    via.editor_mut().text().clone()
}

const QUIET: Reaction =
    Reaction { stop: Stop::Continue, memo: Memo::Keep, redraw: Redraw::Nothing, save: false };

#[test]
fn starts_in_normal_mode() {
    let via = via_on("", "");
    assert_eq!(via.mode(), Mode::Normal);
    assert_eq!(via.first_row(), 1);
    assert_eq!(via.editor().num_lines(), 1);
    assert_eq!(via.cmd_editor().num_lines(), 1);
    assert_eq!(via.options().verboseness, 1);
}

#[test]
fn insert_mode_types_text() {
    let mut via = via_on("", "");
    assert_eq!(via.handle(key("i"), 24), QUIET);
    assert_eq!(via.mode(), Mode::Insert);
    let reaction = type_keys(&mut via, "hi");
    assert_eq!(reaction.redraw, Redraw::RowFromEdge);
    let reaction = type_keys(&mut via, "\n");
    assert_eq!(reaction.redraw, Redraw::Everything);
    type_keys(&mut via, "yo");
    assert_eq!(via.editor().num_lines(), 2);
    assert_eq!((via.editor().row(), via.editor().col()), (2, 3));
    assert!(!via.editor().text_matches());
    assert_eq!(text_of(&mut via), b"hi\nyo");
    // Esc leads back and takes a step to the left
    assert_eq!(via.handle(Event::Key(Key::Esc), 24), QUIET);
    assert_eq!(via.mode(), Mode::Normal);
    assert_eq!((via.editor().row(), via.editor().col()), (2, 2));
}

#[test]
fn normal_mode_moves_the_cursor() {
    let mut via = via_on("f", "abc\nde\nfgh");
    type_keys(&mut via, "l");
    assert_eq!(via.editor().col(), 2);
    type_keys(&mut via, "l");
    type_keys(&mut via, "l");
    // never behind the last byte
    assert_eq!(via.editor().col(), 3);
    type_keys(&mut via, "j");
    assert_eq!((via.editor().row(), via.editor().col()), (2, 2));
    // the step back from behind the last byte is a horizontal motion
    type_keys(&mut via, "j");
    assert_eq!((via.editor().row(), via.editor().col()), (3, 2));
    type_keys(&mut via, "k");
    assert_eq!((via.editor().row(), via.editor().col()), (2, 2));
    type_keys(&mut via, "h");
    assert_eq!((via.editor().row(), via.editor().col()), (2, 1));
    type_keys(&mut via, "$");
    assert_eq!((via.editor().row(), via.editor().col()), (2, 2));
    type_keys(&mut via, "0");
    assert_eq!((via.editor().row(), via.editor().col()), (2, 1));
    via.handle(Event::Key(Key::End), 24);
    assert_eq!((via.editor().row(), via.editor().col()), (2, 3));
    via.handle(Event::Key(Key::Home), 24);
    assert_eq!((via.editor().row(), via.editor().col()), (2, 1));
    type_keys(&mut via, "\n");
    assert_eq!((via.editor().row(), via.editor().col()), (3, 1));
    assert_eq!(via.mode(), Mode::Normal);
    assert!(via.editor().text_matches());
}

#[test]
fn the_screen_scrolls_when_the_cursor_stands_below_it() {
    let mut via = via_on("f", "a\nb\nc\nd");
    type_keys(&mut via, "j");
    type_keys(&mut via, "j");
    assert_eq!(via.first_row(), 1);
    assert_eq!(via.editor().row(), 3);
    // two rows on the screen: rows 1 and 2, the cursor is in row 3
    via.handle(key("j"), 2);
    assert_eq!(via.first_row(), 2);
    assert_eq!(via.editor().row(), 4);
}

#[test]
fn opening_lines() {
    let mut via = via_on("", "");
    type_keys(&mut via, "i");
    type_keys(&mut via, "ab");
    via.handle(Event::Key(Key::Esc), 24);
    let reaction = type_keys(&mut via, "o");
    assert_eq!(reaction.redraw, Redraw::Everything);
    assert_eq!(via.mode(), Mode::Insert);
    assert_eq!((via.editor().row(), via.editor().col()), (2, 1));
    type_keys(&mut via, "c");
    via.handle(Event::Key(Key::Esc), 24);
    type_keys(&mut via, "O");
    assert_eq!(via.mode(), Mode::Insert);
    assert_eq!((via.editor().row(), via.editor().col()), (2, 1));
    assert_eq!(text_of(&mut via), b"ab\n\nc");
}

#[test]
fn append_keys() {
    let mut via = via_on("", "abc");
    type_keys(&mut via, "a");
    assert_eq!(via.mode(), Mode::Insert);
    assert_eq!(via.editor().col(), 2);
    via.handle(Event::Key(Key::Esc), 24);
    type_keys(&mut via, "A");
    assert_eq!(via.mode(), Mode::Insert);
    assert_eq!(via.editor().col(), 4);
}

#[test]
fn delete_key_deletes_joins_and_quits() {
    let mut via = via_on("f", "ab\ncd");
    type_keys(&mut via, "j");
    type_keys(&mut via, "k");
    assert_eq!(via.editor().num_lines(), 2);
    // a byte
    let reaction = via.handle(Event::Key(Key::Delete), 24);
    assert_eq!(reaction.redraw, Redraw::Row);
    assert_eq!(text_of(&mut via), b"b\ncd");
    // at the last byte of the row: it goes with its newline
    let reaction = via.handle(Event::Key(Key::Delete), 24);
    assert_eq!(reaction.redraw, Redraw::Everything);
    assert_eq!(text_of(&mut via), b"cd");
    // at the last byte of the last row: the end
    type_keys(&mut via, "$");
    let reaction = via.handle(Event::Key(Key::Delete), 24);
    assert_eq!(reaction.stop, Stop::Quit);
}

#[test]
fn delete_key_behind_the_last_byte_is_refused() {
    let mut via = via_on("", "");
    type_keys(&mut via, "i");
    type_keys(&mut via, "ab");
    let reaction = via.handle(Event::Key(Key::Delete), 24);
    assert_eq!(reaction.stop, Stop::Refused(Refusal::NothingToDelete));
    assert_eq!(text_of(&mut via), b"ab");
}

#[test]
fn backspace_in_insert_mode() {
    let mut via = via_on("", "");
    type_keys(&mut via, "i");
    assert_eq!(via.handle(Event::Key(Key::Backspace), 24), QUIET);
    type_keys(&mut via, "ab\nc");
    let reaction = via.handle(Event::Key(Key::Backspace), 24);
    assert_eq!(reaction.redraw, Redraw::RowFromStart);
    assert_eq!(text_of(&mut via), b"ab\n");
    let reaction = via.handle(Event::Key(Key::Backspace), 24);
    assert_eq!(reaction.redraw, Redraw::Everything);
    assert_eq!(text_of(&mut via), b"ab");
    assert_eq!((via.editor().row(), via.editor().col()), (1, 3));
}

#[test]
fn command_line_quits_an_unchanged_document() {
    let mut via = via_on("f", "abc");
    let reaction = type_keys(&mut via, ":");
    assert_eq!(reaction.memo, Memo::Save);
    assert_eq!(via.mode(), Mode::CommandLine);
    assert_eq!(via.cmd_editor().col(), 2);
    let reaction = type_keys(&mut via, "q\n");
    assert_eq!(reaction.stop, Stop::Quit);
    assert!(!reaction.save);
}

#[test]
fn command_line_keeps_unsaved_changes() {
    let mut via = via_on("f", "abc");
    type_keys(&mut via, "ix");
    via.handle(Event::Key(Key::Esc), 24);
    let reaction = type_keys(&mut via, ":q\n");
    assert_eq!(reaction.stop, Stop::Refused(Refusal::UnsavedChanges));
    via.handle(Event::Key(Key::Esc), 24);
    let reaction = type_keys(&mut via, ":q!\n");
    assert_eq!(reaction.stop, Stop::Quit);
    assert!(!reaction.save);
}

#[test]
fn command_line_writes() {
    let mut via = via_on("f", "abc");
    let reaction = type_keys(&mut via, ":wq\n");
    assert_eq!(reaction.stop, Stop::Quit);
    assert!(reaction.save);

    let mut via = via_on("", "");
    let reaction = type_keys(&mut via, ":wq\n");
    assert_eq!(reaction.stop, Stop::Refused(Refusal::NoFileName));
    assert!(!reaction.save);
}

#[test]
fn command_line_refuses_what_it_does_not_know() {
    let mut via = via_on("f", "abc");
    let reaction = type_keys(&mut via, ":hello\n");
    assert_eq!(reaction.stop, Stop::Refused(Refusal::UnknownCommand));
}

#[test]
fn command_line_can_be_edited_and_left() {
    let mut via = via_on("f", "abc");
    type_keys(&mut via, ":wx");
    via.handle(Event::Key(Key::Backspace), 24);
    assert_eq!(via.cmd_editor().col(), 3);
    via.handle(Event::Key(Key::Left), 24);
    via.handle(Event::Key(Key::Home), 24);
    assert_eq!(via.cmd_editor().col(), 1);
    let reaction = via.handle(Event::Key(Key::Delete), 24);
    assert_eq!(reaction.redraw, Redraw::Command);
    via.handle(Event::Key(Key::End), 24);
    assert_eq!(via.cmd_editor().col(), 2);
    via.handle(Event::Key(Key::Right), 24);
    let reaction = via.handle(Event::Key(Key::Esc), 24);
    assert_eq!(reaction.memo, Memo::Restore);
    assert_eq!(via.mode(), Mode::Normal);
    // the command line starts anew
    type_keys(&mut via, ":");
    assert_eq!(via.cmd_editor().col(), 2);
    assert_eq!(via.cmd_editor().line_len(1), 1);
    assert_eq!(via.cmd_editor_mut().text(), b":");
}

#[test]
fn mouse_press_moves_the_cursor() {
    let mut via = via_on("f", "abcdef\ngh\nij");
    type_keys(&mut via, "i");
    via.handle(Event::MousePress { x: 4, y: 2 }, 24);
    assert_eq!(via.mode(), Mode::Normal);
    // the column is that of the press, but no further than the row allows
    assert_eq!((via.editor().row(), via.editor().col()), (2, 3));
    assert_eq!(via.handle(Event::Other, 24), QUIET);
    assert_eq!(via.handle(Event::Key(Key::Other), 24), QUIET);
}

use via::error::Error;
use via::modes::{Event, Key, Memo, Reaction, Redraw, Stop, Via};
use via::options::ViaOptions;
use via::screen::{finish, frame, start};

fn via_on(content: &str) -> Via {
    let mut via = Via::new("f".to_string(), content.as_bytes().to_vec(), ViaOptions::new());
    via.editor_mut().read_to_eof();
    via
}

fn reaction(redraw: Redraw) -> Reaction {
    Reaction { stop: Stop::Continue, memo: Memo::Keep, redraw, save: false }
}

fn press(via: &mut Via, text: &str) -> Reaction {
    via.handle(Event::Key(Key::Char(text.to_string())), 24)
}

#[test]
fn start_clears_the_screen() {
    assert_eq!(start(), b"\x1b[2J\x1b[1;1H\x1b[1 q");
}

#[test]
fn finish_clears_the_screen_and_shows_the_cursor() {
    assert_eq!(finish(), b"\x1b[2J\x1b[1;1H\x1b[?25h\x1b[1 q");
}

#[test]
fn the_cursor_is_placed_after_every_event() {
    let mut via = via_on("abc\ndefgh");
    via.editor_mut().goto(2, 4);
    assert_eq!(frame(&mut via, reaction(Redraw::Nothing), 24).unwrap(), b"\x1b[2;4H\x1b[1 q");
    // a bar in insert mode
    press(&mut via, "i");
    assert_eq!(frame(&mut via, reaction(Redraw::Nothing), 24).unwrap(), b"\x1b[2;4H\x1b[5 q");
}

#[test]
fn coordinates_are_written_in_decimal() {
    let long_row = "x".repeat(120);
    let mut text = String::new();
    for _ in 0..104 {
        text.push('\n');
    }
    text.push_str(&long_row);
    let mut via = via_on(&text);
    via.editor_mut().goto(105, 101);
    assert_eq!(frame(&mut via, reaction(Redraw::Nothing), 24).unwrap(), b"\x1b[105;101H\x1b[1 q");
    via.editor_mut().goto(10, 1);
    assert_eq!(frame(&mut via, reaction(Redraw::Nothing), 24).unwrap(), b"\x1b[10;1H\x1b[1 q");
    via.editor_mut().goto(9, 1);
    assert_eq!(frame(&mut via, reaction(Redraw::Nothing), 24).unwrap(), b"\x1b[9;1H\x1b[1 q");
}

#[test]
fn the_cursor_memory_comes_first() {
    let mut via = via_on("abc");
    let save = Reaction { memo: Memo::Save, ..reaction(Redraw::Nothing) };
    assert_eq!(frame(&mut via, save, 24).unwrap(), b"\x1b[s\x1b[1;1H\x1b[1 q");
    let restore = Reaction { memo: Memo::Restore, ..reaction(Redraw::Row) };
    assert_eq!(frame(&mut via, restore, 24).unwrap(), b"\x1b[u\x1b[2Kabc\x1b[1;1H\x1b[1 q");
}

#[test]
fn rows_are_drawn_again() {
    let mut via = via_on("abc\ndefgh\n");
    via.editor_mut().goto(2, 2);
    assert_eq!(
        frame(&mut via, reaction(Redraw::Row), 24).unwrap(),
        b"\x1b[2Kdefgh\x1b[2;2H\x1b[1 q"
    );
    assert_eq!(
        frame(&mut via, reaction(Redraw::RowFromEdge), 24).unwrap(),
        b"\rdefgh\x1b[2;2H\x1b[1 q"
    );
    assert_eq!(
        frame(&mut via, reaction(Redraw::RowFromStart), 24).unwrap(),
        b"\x1b[2K\x1b[2;1Hdefgh\x1b[2;2H\x1b[1 q"
    );
}

#[test]
fn the_command_line_is_drawn_again() {
    let mut via = via_on("abc");
    press(&mut via, ":");
    press(&mut via, "w");
    assert_eq!(
        frame(&mut via, reaction(Redraw::Command), 24).unwrap(),
        b"\x1b[2K:w\x1b[1;1H\x1b[5 q"
    );
}

#[test]
fn everything_is_drawn_row_by_row() {
    let mut via = via_on("ab\n\ncd");
    assert_eq!(
        frame(&mut via, reaction(Redraw::Everything), 24).unwrap(),
        b"\x1b[1;1Hab\x1b[2;1H\x1b[3;1Hcd\x1b[1;1H\x1b[1 q"
    );
    // no more rows than the screen has lines
    assert_eq!(
        frame(&mut via, reaction(Redraw::Everything), 2).unwrap(),
        b"\x1b[1;1Hab\x1b[2;1H\x1b[1;1H\x1b[1 q"
    );
    // a screen without lines shows nothing
    assert_eq!(frame(&mut via, reaction(Redraw::Everything), 0), Err(Error::OutOfRange));
}

#[test]
fn drawing_starts_at_the_top_row_of_the_screen() {
    let mut via = via_on("a\nb\nc\nd");
    press(&mut via, "j");
    press(&mut via, "j");
    // two lines on the screen, the cursor right below them
    via.handle(Event::Key(Key::Char("j".to_string())), 2);
    assert_eq!(via.first_row(), 2);
    assert_eq!(
        frame(&mut via, reaction(Redraw::Everything), 2).unwrap(),
        b"\x1b[1;1Hb\x1b[2;1Hc\x1b[3;1H\x1b[1 q"
    );
    // a cursor above the top row has no place on the screen
    via.editor_mut().goto(1, 1);
    assert_eq!(frame(&mut via, reaction(Redraw::Nothing), 2), Err(Error::OutOfRange));
    assert_eq!(frame(&mut via, reaction(Redraw::RowFromStart), 2), Err(Error::OutOfRange));
}

#[test]
fn nothing_places_the_cursor_when_the_editor_stops() {
    let mut via = via_on("abc");
    let quit = Reaction { stop: Stop::Quit, ..reaction(Redraw::Nothing) };
    assert_eq!(frame(&mut via, quit, 24).unwrap(), b"");
}

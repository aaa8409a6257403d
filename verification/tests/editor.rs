use via::editor::{source_wanted, Editor};
use via::error::Error;

/// A window on no file.
fn empty_editor() -> Editor {
    Editor::new(String::new(), Vec::new())
}

/// A window on a file with the given content.
fn editor_on(content: &str) -> Editor {
    Editor::new("file.txt".to_string(), content.as_bytes().to_vec())
}

/// The line index, read through the public queries.
fn line_index(editor: &Editor) -> Vec<usize> {
    (1..=editor.num_lines()).map(|row| editor.line_len(row)).collect()
}

#[test]
fn editor_add_text() {
    let mut editor = empty_editor();
    let mut want_str = "hello";
    editor.add_text(want_str.to_string());
    assert_eq!(editor.text(), want_str.as_bytes());

    editor = empty_editor();
    want_str = "hello\nbye";
    editor.add_text(want_str.to_string());
    assert_eq!(editor.text(), want_str.as_bytes());

    editor = empty_editor();
    editor.add_text("hello\n".to_string());
    editor.add_text("bye".to_string());
    want_str = "hello\nbye";
    assert_eq!(editor.text(), want_str.as_bytes());

    editor = empty_editor();
    editor.add_text("hello\n\n".to_string());
    editor.add_text("bye".to_string());
    want_str = "hello\n\nbye";
    assert_eq!(editor.text(), want_str.as_bytes());

    editor = empty_editor();
    editor.add_text("hello".to_string());
    editor.add_text("\nbye".to_string());
    want_str = "hello\nbye";
    assert_eq!(editor.text(), want_str.as_bytes());

    editor = empty_editor();
    editor.add_text("\nhello".to_string());
    editor.add_text("\nbye".to_string());
    want_str = "\nhello\nbye";
    assert_eq!(editor.text(), want_str.as_bytes());
}

#[test]
fn editor_delete_text() {
    let mut editor = empty_editor();
    let mut want_str = "";
    editor.add_text("abcd".to_string());
    editor.delete_text(1, 1).unwrap();
    assert_eq!(editor.text(), want_str.as_bytes());

    editor = empty_editor();
    want_str = "ab\nef";
    editor.add_text("ab\ncd\nef".to_string());
    editor.goto(2, 1);
    editor.delete_text(3, 1).unwrap();
    assert_eq!(editor.text(), want_str.as_bytes());
    assert_eq!(editor.num_lines(), want_str.lines().count());

    editor = empty_editor();
    want_str = "ab\n\ncd";
    editor.add_text("ab\n\n\ncd".to_string());
    editor.goto(3, 1);
    editor.delete_text(4, 1).unwrap();
    assert_eq!(editor.text(), want_str.as_bytes());

    editor = empty_editor();
    want_str = "ab\n\ncd";
    editor.add_text("ab\n\n\ncd".to_string());
    editor.goto(4, 1);
    editor.delete_text(3, 1).unwrap();
    assert_eq!(editor.text(), want_str.as_bytes());

    editor = empty_editor();
    editor.add_text("h".to_string());
    editor.add_text("\n".to_string());
    editor.add_text("b".to_string());
    want_str = "h\nb";
    assert_eq!(editor.text(), want_str.as_bytes());
}

#[test]
fn movement() {
    let mut editor = empty_editor();
    let mut want_str = "hello\nbye";
    editor.add_text("hello\n".to_string());
    editor.down(1);
    editor.add_text("bye".to_string());
    assert_eq!(editor.text(), want_str.as_bytes());

    editor = empty_editor();
    want_str = "hello\nbye";
    editor.add_text("h\n".to_string());
    editor.down(1);
    editor.add_text("bye".to_string());
    editor.up(1);
    editor.add_text("ello".to_string());
    assert_eq!(editor.text(), want_str.as_bytes());

    editor = empty_editor();
    want_str = "ab\nabcd";
    editor.add_text("ab\n".to_string());
    editor.down(1);
    editor.add_text("abc".to_string());
    editor.up(1);
    editor.down(1);
    editor.add_text("d".to_string());
    assert_eq!(editor.text(), want_str.as_bytes());

    editor = empty_editor();
    want_str = "abcde\na\n\na";
    editor.add_text("acd\n".to_string());
    editor.add_text("a\n\n".to_string());
    assert_eq!(editor.text(), "acd\na\n\n".as_bytes());
    editor.up(3);
    editor.right(1);
    editor.add_text("b".to_string());
    assert_eq!(editor.text(), "abcd\na\n\n".as_bytes());
    editor.goto_last_col();
    editor.add_text("e".to_string());
    assert_eq!(editor.text(), "abcde\na\n\n".as_bytes());
    editor.down(3);
    editor.add_text("a".to_string());
    assert_eq!(editor.text(), want_str.as_bytes());

    editor = empty_editor();
    editor.add_text("he".to_string());
    editor.left(1);
    editor.add_text("\n".to_string());
    editor.add_text("b".to_string());
    want_str = "h\nbe";
    assert_eq!(editor.text(), want_str.as_bytes());

    editor = empty_editor();
    editor.add_text("hellobye".to_string());
    editor.left(3);
    editor.add_text("\n".to_string());
    want_str = "hello\nbye";
    assert_eq!(editor.text(), want_str.as_bytes());

    editor = empty_editor();
    editor.add_text("helloye".to_string());
    editor.left(2);
    editor.add_text("\nb".to_string());
    want_str = "hello\nbye";
    assert_eq!(editor.text(), want_str.as_bytes());

    editor = empty_editor();
    editor.add_text("abc".to_string());
    editor.left(2);
    editor.add_text("d\n".to_string());
    editor.add_text("e".to_string());
    want_str = "ad\nebc";
    assert_eq!(editor.text(), want_str.as_bytes());

    editor = empty_editor();
    editor.add_text("helloe".to_string());
    editor.left(1);
    editor.add_text("\nb".to_string());
    editor.add_text("y".to_string());
    want_str = "hello\nbye";
    assert_eq!(editor.text(), want_str.as_bytes());

    editor = empty_editor();
    editor.add_text("hellye".to_string());
    editor.left(2);
    editor.add_text("\nb".to_string());
    editor.up(1);
    editor.goto_last_col();
    editor.add_text("o".to_string());
    want_str = "hello\nbye";
    assert_eq!(editor.text(), want_str.as_bytes());

    editor = empty_editor();
    editor.add_text("hello".to_string());
    editor.add_text("\n".to_string());
    editor.add_text("by".to_string());
    editor.up(1);
    editor.goto_last_col();
    editor.add_text("\n".to_string());
    editor.add_text("and".to_string());
    editor.down(1);
    editor.goto_last_col();
    editor.add_text("e".to_string());
    want_str = "hello\nand\nbye";
    assert_eq!(editor.text(), want_str.as_bytes());
}

#[test]
fn editor_edge_cases() {
    let mut editor = empty_editor();
    let mut want_str = "hell";
    editor.add_text("hello\n\n".to_string());
    editor.delete_text(1, 5).unwrap();
    assert_eq!(editor.text(), want_str.as_bytes());

    editor = empty_editor();
    want_str = "hello";
    editor.add_text("hello\n\n".to_string());
    editor.delete_text(1, 6).unwrap();
    assert_eq!(editor.text(), want_str.as_bytes());

    editor = empty_editor();
    want_str = "";
    editor.add_text("\n\n".to_string());
    editor.delete_text(1, 1).unwrap();
    assert_eq!(editor.text(), want_str.as_bytes());
}

#[test]
fn more_cases() {
    let mut editor = empty_editor();
    let mut want_str = "hello\nbye";
    editor.add_text("hello\n\n".to_string());
    editor.add_text("bye".to_string());
    editor.up(2);
    editor.goto_last_col();
    editor.delete_text(editor.row() + 1, 1).unwrap();
    assert_eq!(editor.text(), want_str.as_bytes());
    println!("{:?}", line_index(&editor));
    assert_eq!(editor.num_lines(), want_str.lines().count());

    editor = empty_editor();
    want_str = "hellobye";
    editor.add_text("hello\n\n".to_string());
    editor.add_text("bye".to_string());
    editor.up(2);
    editor.goto_last_col();
    editor.delete_text(editor.row() + 2, 1).unwrap();
    assert_eq!(editor.text(), want_str.as_bytes());
    assert_eq!(editor.num_lines(), want_str.lines().count());
}

#[test]
fn text_lines() {
    let mut editor = empty_editor();
    let mut want_str = "abc";
    editor.add_text("abc".to_string());
    assert_eq!(editor.text_lines(1, 2), want_str.as_bytes());

    editor = empty_editor();
    want_str = "abc";
    editor.add_text("abc\n\ncd".to_string());
    assert_eq!(editor.text_line(1), want_str.as_bytes());

    editor = empty_editor();
    want_str = "abc";
    editor.add_text("abc\n\ncd".to_string());
    assert_eq!(editor.text_lines(1, 2), want_str.as_bytes());

    editor = empty_editor();
    want_str = "";
    editor.add_text("abc\n\ncd".to_string());
    assert_eq!(editor.text_line(2), want_str.as_bytes());

    editor = empty_editor();
    want_str = "\ncd\ne";
    editor.add_text("abc\n\ncd\ne".to_string());
    assert_eq!(editor.text_lines(2, 5), want_str.as_bytes());
}

#[test]
fn multi_line_add_via_cursor() {
    let mut editor = empty_editor();
    editor.add_text("hello\n".to_string());
    editor.down(1);
    editor.add_text("bye".to_string());
    assert_eq!(editor.text(), b"hello\nbye");
    assert_eq!(line_index(&editor), vec![5, 3]);
    assert_eq!((editor.row(), editor.col()), (2, 4));
}

#[test]
fn mid_line_newline() {
    let mut editor = empty_editor();
    editor.add_text("hellobye".to_string());
    editor.left(3);
    editor.add_text("\n".to_string());
    assert_eq!(editor.text(), b"hello\nbye");
    assert_eq!(line_index(&editor), vec![5, 3]);
    assert_eq!((editor.row(), editor.col()), (2, 1));
}

#[test]
fn cross_line_delete() {
    let mut editor = empty_editor();
    editor.add_text("hello\n\n".to_string());
    editor.add_text("bye".to_string());
    editor.up(2);
    editor.goto_last_col();
    editor.delete_text(editor.row() + 1, 1).unwrap();
    assert_eq!(editor.text(), b"hello\nbye");
    assert_eq!(editor.num_lines(), 2);
}

#[test]
fn empty_line_insert() {
    let mut editor = empty_editor();
    editor.add_text("\n\n".to_string());
    editor.delete_text(1, 1).unwrap();
    assert_eq!(editor.text(), b"");
    assert_eq!(line_index(&editor), vec![0]);
    assert_eq!((editor.row(), editor.col()), (1, 1));
}

/// The offset that the row and column formula gives for the cursor.
fn formula_offset(editor: &Editor) -> usize {
    let mut offset = 0;
    for row in 1..editor.row() {
        offset += editor.line_len(row) + 1;
    }
    offset + editor.col() - 1
}

/// What the line index sums to: every row with its newline, but the last.
fn line_index_total(editor: &Editor) -> usize {
    let rows = editor.num_lines();
    let mut total = 0;
    for row in 1..rows {
        total += editor.line_len(row) + 1;
    }
    total + editor.line_len(rows)
}

#[test]
fn line_index_sums_to_the_text_length() {
    let mut editor = empty_editor();
    assert_eq!(line_index_total(&editor), 0);
    editor.add_text("one\ntwo\n\nfour".to_string());
    assert_eq!(line_index(&editor), vec![3, 3, 0, 4]);
    assert_eq!(line_index_total(&editor), editor.text().len());
    assert_eq!(line_index_total(&editor), 3 + 1 + 3 + 1 + 0 + 1 + 4);
    editor.goto(2, 2);
    editor.add_text("X\nY".to_string());
    assert_eq!(line_index(&editor), vec![3, 2, 3, 0, 4]);
    assert_eq!(line_index_total(&editor), editor.text().len());
    editor.delete_text(4, 1).unwrap();
    assert_eq!(line_index(&editor), vec![3, 2, 1, 4]);
    assert_eq!(editor.text(), b"one\ntX\nY\nfour");
    assert_eq!(line_index_total(&editor), editor.text().len());
    editor.delete_all();
    assert_eq!(line_index(&editor), vec![0]);
    assert_eq!(line_index_total(&editor), 0);
    assert_eq!(editor.text(), b"");
}

#[test]
fn byte_index_follows_row_and_column() {
    // the cursor's offset is where the next text goes in
    let mut editor = empty_editor();
    editor.add_text("ab\ncdef\n\ng".to_string());
    let moves: Vec<(usize, usize)> = vec![(1, 1), (2, 3), (3, 1), (4, 2), (2, 5), (1, 3)];
    for (row, col) in moves {
        editor.goto(row, col);
        assert_eq!((editor.row(), editor.col()), (row, col));
        let at = formula_offset(&editor);
        let mut want = editor.text().clone();
        want.insert(at, b'#');
        editor.add_text("#".to_string());
        assert_eq!(editor.text(), &want);
        assert_eq!(formula_offset(&editor), at + 1);
        editor.delete_text(row, col).unwrap();
        assert_eq!(formula_offset(&editor), at);
    }
    assert_eq!(editor.text(), b"ab\ncdef\n\ng");
}

#[test]
fn vertical_motions_remember_the_wanted_column() {
    let mut editor = empty_editor();
    editor.add_text("long line\nab\n\nanother long".to_string());
    editor.goto(1, 8);
    editor.down(1);
    assert_eq!((editor.row(), editor.col()), (2, 3));
    editor.down(1);
    assert_eq!((editor.row(), editor.col()), (3, 1));
    editor.down(1);
    assert_eq!((editor.row(), editor.col()), (4, 8));
    editor.up(3);
    assert_eq!((editor.row(), editor.col()), (1, 8));
    // a horizontal motion sets the wanted column anew
    editor.down(1);
    editor.left(1);
    assert_eq!((editor.row(), editor.col()), (2, 2));
    editor.up(1);
    assert_eq!((editor.row(), editor.col()), (1, 2));
    // goto_row keeps it, goto_col sets it
    editor.goto_col(6);
    editor.goto_row(3);
    assert_eq!((editor.row(), editor.col()), (3, 1));
    editor.goto_row(4);
    assert_eq!((editor.row(), editor.col()), (4, 6));
}

#[test]
fn motions_clamp() {
    let mut editor = empty_editor();
    editor.add_text("abc\nde".to_string());
    editor.up(10);
    assert_eq!(editor.row(), 1);
    editor.up(1);
    assert_eq!(editor.row(), 1);
    editor.down(usize::MAX);
    assert_eq!(editor.row(), 2);
    editor.down(1);
    assert_eq!(editor.row(), 2);
    editor.right(usize::MAX);
    assert_eq!(editor.col(), 3);
    editor.left(usize::MAX);
    assert_eq!(editor.col(), 1);
    editor.left(1);
    assert_eq!(editor.col(), 1);
    editor.goto_col(0);
    assert_eq!(editor.col(), 1);
    editor.goto_col(99);
    assert_eq!(editor.col(), 3);
    editor.goto_row(0);
    assert_eq!(editor.row(), 1);
    editor.goto(99, 99);
    assert_eq!((editor.row(), editor.col()), (2, 3));
    editor.goto_last_row();
    assert_eq!((editor.row(), editor.col()), (2, 1));
    editor.up(0);
    editor.down(0);
    editor.right(0);
    editor.left(0);
    assert_eq!((editor.row(), editor.col()), (2, 1));
}

#[test]
fn opening_reads_one_line() {
    let mut editor = editor_on("first\nsecond\nthird");
    assert_eq!(editor.file_path(), "file.txt");
    assert_eq!(editor.num_lines(), 1);
    assert_eq!(editor.line_len(1), 5);
    assert_eq!(editor.num_cols(1), 5);
    assert_eq!(editor.text(), b"first\n");
    assert!(editor.text_matches());
    assert_eq!((editor.row(), editor.col()), (1, 1));
}

#[test]
fn opening_an_empty_file_gives_one_empty_row() {
    let mut editor = editor_on("");
    assert_eq!(line_index(&editor), vec![0]);
    assert_eq!(editor.text(), b"");
    assert_eq!(editor.read_lines(3), 0);
    assert_eq!(line_index(&editor), vec![0]);
}

#[test]
fn lines_are_read_as_the_cursor_goes_down() {
    let mut editor = editor_on("first\nsecond\nthird");
    editor.down(1);
    assert_eq!(editor.num_lines(), 2);
    assert_eq!((editor.row(), editor.col()), (2, 1));
    assert_eq!(editor.text(), b"first\nsecond\n");
    editor.down(5);
    assert_eq!(line_index(&editor), vec![5, 6, 5]);
    assert_eq!((editor.row(), editor.col()), (3, 1));
    assert_eq!(editor.text(), b"first\nsecond\nthird");
    // reading is no edit
    assert!(editor.text_matches());
}

#[test]
fn read_lines_counts_what_it_read() {
    let mut editor = editor_on("a\nbb\nccc\n");
    assert_eq!(editor.read_lines(0), 0);
    assert_eq!(editor.read_lines(1), 1);
    assert_eq!(line_index(&editor), vec![1, 2]);
    assert_eq!(editor.read_lines(5), 1);
    assert_eq!(line_index(&editor), vec![1, 2, 3]);
    assert_eq!(editor.read_lines(5), 0);
    // the newline of the last line is in the document, and is no row
    assert_eq!(editor.text(), b"a\nbb\nccc\n");
    assert_eq!(line_index_total(&editor) + 1, editor.text().len());
}

#[test]
fn a_missing_final_newline_is_kept() {
    let mut editor = editor_on("a\nbb");
    editor.read_to_eof();
    assert_eq!(line_index(&editor), vec![1, 2]);
    assert_eq!(editor.text(), b"a\nbb");
    assert_eq!(line_index_total(&editor), editor.text().len());
}

#[test]
fn goto_last_row_reads_the_whole_file() {
    let mut editor = editor_on("a\nbb\nccc\ndddd");
    editor.goto_last_row();
    assert_eq!(line_index(&editor), vec![1, 2, 3, 4]);
    assert_eq!((editor.row(), editor.col()), (4, 1));
    editor.goto_last_col();
    assert_eq!((editor.row(), editor.col()), (4, 5));
    assert_eq!(formula_offset(&editor), editor.text().len());
}

#[test]
fn edits_mix_with_reading() {
    let mut editor = editor_on("one\ntwo\nthree\n");
    editor.goto_last_col();
    editor.add_text("!".to_string());
    assert!(!editor.text_matches());
    assert_eq!(editor.text(), b"one!\n");
    editor.add_text("\nextra".to_string());
    assert_eq!(editor.text(), b"one!\nextra\n");
    assert_eq!(line_index(&editor), vec![4, 5]);
    editor.down(1);
    assert_eq!(editor.text(), b"one!\nextra\ntwo\n");
    assert_eq!(line_index(&editor), vec![4, 5, 3]);
    assert_eq!((editor.row(), editor.col()), (3, 4));
    editor.delete_text(4, 3).unwrap();
    assert_eq!(editor.text(), b"one!\nextra\ntworee\n");
    assert_eq!(line_index(&editor), vec![4, 5, 6]);
    assert_eq!((editor.row(), editor.col()), (3, 4));
}

#[test]
fn deleting_reads_as_far_as_the_row_it_names() {
    let mut editor = editor_on("ab\ncd\nef\ngh");
    editor.delete_text(3, 2).unwrap();
    assert_eq!(editor.text(), b"f\n");
    assert_eq!(line_index(&editor), vec![1]);
    assert_eq!((editor.row(), editor.col()), (1, 1));
}

#[test]
fn deleting_to_a_position_that_is_not_there_fails() {
    let mut editor = empty_editor();
    editor.add_text("abc\nde".to_string());
    assert_eq!(editor.delete_text(2, 4), Err(Error::OutOfRange));
    assert_eq!(editor.delete_text(1, 5), Err(Error::OutOfRange));
    assert_eq!(editor.delete_text(3, 1), Err(Error::OutOfRange));
    assert_eq!(editor.delete_text(0, 1), Err(Error::OutOfRange));
    assert_eq!(editor.delete_text(1, 0), Err(Error::OutOfRange));
    assert_eq!(editor.text(), b"abc\nde");
    assert_eq!(line_index(&editor), vec![3, 2]);
    assert_eq!((editor.row(), editor.col()), (2, 3));
    // the cursor's own position names the empty range
    assert_eq!(editor.delete_text(2, 3), Ok(()));
    assert_eq!(editor.text(), b"abc\nde");
}

#[test]
fn delete_to_end_reads_and_deletes_the_rest() {
    let mut editor = editor_on("ab\ncd\nef");
    editor.goto_col(2);
    editor.delete_to_end();
    assert_eq!(editor.text(), b"a");
    assert_eq!(line_index(&editor), vec![1]);
    assert_eq!((editor.row(), editor.col()), (1, 2));

    let mut editor = editor_on("ab\ncd\nef\n");
    editor.down(1);
    editor.delete_text(usize::MAX, usize::MAX).unwrap();
    assert_eq!(editor.text(), b"ab\n\n");
    assert_eq!(line_index(&editor), vec![2, 0]);
}

#[test]
fn delete_all_empties_the_window() {
    let mut editor = empty_editor();
    editor.delete_all();
    assert!(editor.text_matches());
    editor.add_text("abc\nde".to_string());
    editor.delete_all();
    assert_eq!(editor.text(), b"");
    assert_eq!(line_index(&editor), vec![0]);
    assert_eq!((editor.row(), editor.col()), (1, 1));
    editor.add_text("x".to_string());
    assert_eq!(editor.text(), b"x");
}

#[test]
fn lines_read_after_delete_all_continue_the_empty_row() {
    let mut editor = editor_on("ab\ncd\n");
    editor.delete_all();
    assert_eq!(line_index(&editor), vec![0]);
    editor.down(1);
    assert_eq!(editor.text(), b"cd\n");
    assert_eq!(line_index(&editor), vec![2]);
    assert_eq!((editor.row(), editor.col()), (1, 1));
}

#[test]
fn text_lines_leaves_out_rows_that_are_not_there() {
    let mut editor = empty_editor();
    editor.add_text("a\nbc\ndef".to_string());
    assert_eq!(editor.text_lines(1, 4), b"a\nbc\ndef");
    assert_eq!(editor.text_lines(2, 100), b"bc\ndef");
    assert_eq!(editor.text_lines(3, 4), b"def");
    assert_eq!(editor.text_line(3), b"def");
    assert_eq!(editor.text_line(2), b"bc");

    let mut editor = editor_on("a\nbc\n");
    editor.read_to_eof();
    assert_eq!(editor.text_lines(1, 3), b"a\nbc");
    assert_eq!(editor.text_line(2), b"bc");
}

#[test]
fn file_path_can_be_changed() {
    let mut editor = empty_editor();
    assert_eq!(editor.file_path(), "");
    editor.update_file_path("other.txt".to_string());
    assert_eq!(editor.file_path(), "other.txt");
}

#[test]
fn room_shrinks_with_what_is_typed() {
    let mut editor = editor_on("abc\ndef");
    let room = editor.room();
    assert_eq!(room, usize::MAX - 2 - 7);
    editor.add_text("hello".to_string());
    assert_eq!(editor.room(), room - 5);
    editor.read_to_eof();
    assert_eq!(editor.room(), room - 5);
}

#[test]
fn a_failed_deletion_reads_nothing() {
    let mut editor = editor_on("ab\ncd\nef");
    assert_eq!(editor.delete_text(5, 1), Err(Error::OutOfRange));
    assert_eq!(editor.delete_text(3, 4), Err(Error::OutOfRange));
    assert_eq!(editor.delete_text(2, 0), Err(Error::OutOfRange));
    assert_eq!(editor.num_lines(), 1);
    assert_eq!(editor.text(), b"ab\n");
    assert!(editor.text_matches());
    // the last position of the file is one
    assert_eq!(editor.delete_text(3, 3), Ok(()));
    assert_eq!(editor.text(), b"");
    assert_eq!(line_index(&editor), vec![0]);
}

#[test]
fn rows_are_counted_as_they_would_be_read() {
    // after everything was deleted, the next line continues the empty row
    let mut editor = editor_on("ab\ncd\nef");
    editor.delete_all();
    assert_eq!(editor.delete_text(2, 1), Err(Error::OutOfRange));
    assert_eq!(editor.text(), b"");
    assert_eq!(line_index(&editor), vec![0]);
    editor.down(1);
    assert_eq!(editor.text(), b"cd\n");
    assert_eq!(line_index(&editor), vec![2]);
    assert_eq!(editor.delete_text(2, 4), Err(Error::OutOfRange));
    assert_eq!(line_index(&editor), vec![2]);
    assert_eq!(editor.delete_text(2, 3), Ok(()));
    assert_eq!(editor.text(), b"");
    assert_eq!(line_index(&editor), vec![0]);
    assert_eq!(editor.read_lines(1), 0);
}

#[test]
fn only_files_are_read() {
    assert_eq!(source_wanted("", false, false), Ok(false));
    assert_eq!(source_wanted("", true, false), Ok(false));
    assert_eq!(source_wanted("notes.txt", true, false), Ok(true));
    assert_eq!(source_wanted("new.txt", false, false), Ok(false));
    assert_eq!(source_wanted("src", false, true), Err(Error::UnsupportedTarget));
    assert_eq!(source_wanted("missing/", false, false), Err(Error::UnsupportedTarget));
    assert_eq!(source_wanted("/", false, true), Err(Error::UnsupportedTarget));
}

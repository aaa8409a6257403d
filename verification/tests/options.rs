use via::lines::{find_line_end, line_lengths_of};
use via::options::{EditorOptions, ViaOptions};

#[test]
fn default_options() {
    assert_eq!(ViaOptions::new().verboseness, 1);
    let options = EditorOptions::new("notes.txt".to_string());
    assert_eq!(options.file_name, "notes.txt");
    assert_eq!(options.verboseness, 1);
}

#[test]
fn line_lengths_count_the_bytes_between_newlines() {
    assert_eq!(line_lengths_of(b""), vec![0]);
    assert_eq!(line_lengths_of(b"abc"), vec![3]);
    assert_eq!(line_lengths_of(b"abc\n"), vec![3, 0]);
    assert_eq!(line_lengths_of(b"\n\n"), vec![0, 0, 0]);
    assert_eq!(line_lengths_of(b"a\nbc\n\ndef"), vec![1, 2, 0, 3]);
    assert_eq!(line_lengths_of("e\u{301}\n\u{1F600}".as_bytes()), vec![3, 4]);
}

#[test]
fn line_ends_are_behind_the_newline() {
    assert_eq!(find_line_end(b"ab\ncd", 0), 3);
    assert_eq!(find_line_end(b"ab\ncd", 2), 3);
    assert_eq!(find_line_end(b"ab\ncd", 3), 5);
    assert_eq!(find_line_end(b"ab\ncd", 5), 5);
    assert_eq!(find_line_end(b"", 0), 0);
    assert_eq!(find_line_end(b"\n", 0), 1);
}

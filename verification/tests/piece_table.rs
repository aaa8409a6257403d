use via::error::Error;
use via::piece_table::PieceTable;
use via::pieces::TableEntry;

/// A table whose document was read from a file.
fn table_from(initial_text: &str) -> PieceTable {
    let mut piece_table = PieceTable::new();
    if !initial_text.is_empty() {
        piece_table.update_original_buffer(initial_text.as_bytes());
    }
    piece_table
}

#[test]
fn piece_table_add_text() {
    let mut piece_table = PieceTable::new();
    let mut want_str = "a";
    piece_table.add_text("a".to_string(), 0).unwrap();
    assert_eq!(piece_table.text_len(), want_str.len());
    assert_eq!(piece_table.text(), want_str.as_bytes());

    piece_table.add_text(" b".to_string(), 1).unwrap();
    want_str = "a b";
    assert_eq!(piece_table.text_len(), want_str.len());
    assert_eq!(piece_table.text(), want_str.as_bytes());

    piece_table.add_text("c ".to_string(), 2).unwrap();
    want_str = "a c b";
    assert_eq!(piece_table.text_len(), want_str.len());
    assert_eq!(piece_table.text(), want_str.as_bytes());

    piece_table.add_text("d ".to_string(), 0).unwrap();
    want_str = "d a c b";
    assert_eq!(piece_table.text_len(), want_str.len());
    assert_eq!(piece_table.text(), want_str.as_bytes());

    // the same, on a table that starts with text from the file
    let mut piece_table = table_from("a");
    let mut want_str = "a";
    assert_eq!(piece_table.text_len(), want_str.len());
    assert_eq!(piece_table.text(), want_str.as_bytes());

    piece_table.add_text(" b".to_string(), 1).unwrap();
    want_str = "a b";
    assert_eq!(piece_table.text_len(), want_str.len());
    assert_eq!(piece_table.text(), want_str.as_bytes());

    piece_table.add_text("c ".to_string(), 2).unwrap();
    want_str = "a c b";
    assert_eq!(piece_table.text_len(), want_str.len());
    assert_eq!(piece_table.text(), want_str.as_bytes());

    piece_table.add_text("d ".to_string(), 0).unwrap();
    want_str = "d a c b";
    assert_eq!(piece_table.text_len(), want_str.len());
    assert_eq!(piece_table.text(), want_str.as_bytes());
}

#[test]
fn piece_table_delete_text() {
    let mut piece_table = PieceTable::new();
    piece_table.add_text("abc".to_string(), 0).unwrap();
    piece_table.delete_text(0, 1).unwrap();
    let mut want_str = "bc";
    assert_eq!(piece_table.text_len(), want_str.len());
    assert_eq!(piece_table.text(), want_str.as_bytes());

    piece_table = PieceTable::new();
    piece_table.add_text("abc".to_string(), 0).unwrap();
    piece_table.delete_text(1, 2).unwrap();
    want_str = "ac";
    assert_eq!(piece_table.text_len(), want_str.len());
    assert_eq!(piece_table.text(), want_str.as_bytes());

    piece_table = PieceTable::new();
    piece_table.add_text("abc".to_string(), 0).unwrap();
    piece_table.delete_text(2, 3).unwrap();
    want_str = "ab";
    assert_eq!(piece_table.text_len(), want_str.len());
    assert_eq!(piece_table.text(), want_str.as_bytes());

    piece_table = PieceTable::new();
    piece_table.add_text("abc".to_string(), 0).unwrap();
    piece_table.delete_text(2, 3).unwrap();
    want_str = "ab";
    assert_eq!(piece_table.text_len(), want_str.len());
    assert_eq!(piece_table.text(), want_str.as_bytes());

    piece_table = PieceTable::new();
    piece_table.add_text("ab".to_string(), 0).unwrap();
    piece_table.add_text("cd".to_string(), 2).unwrap();
    piece_table.delete_text(2, 3).unwrap();
    want_str = "abd";
    assert_eq!(piece_table.text_len(), want_str.len());
    assert_eq!(piece_table.text(), want_str.as_bytes());

    piece_table = PieceTable::new();
    piece_table.add_text("ab".to_string(), 0).unwrap();
    piece_table.add_text("cd".to_string(), 2).unwrap();
    piece_table.add_text("ef".to_string(), 4).unwrap();
    piece_table.delete_text(1, 5).unwrap();
    want_str = "af";
    assert_eq!(piece_table.text_len(), want_str.len());
    assert_eq!(piece_table.text(), want_str.as_bytes());

    piece_table = PieceTable::new();
    piece_table.add_text("ab".to_string(), 0).unwrap();
    piece_table.add_text("cd".to_string(), 2).unwrap();
    piece_table.add_text("ef".to_string(), 4).unwrap();
    piece_table.delete_text(1, 6).unwrap();
    want_str = "a";
    assert_eq!(piece_table.text_len(), want_str.len());
    assert_eq!(piece_table.text(), want_str.as_bytes());

    piece_table = PieceTable::new();
    piece_table.add_text("ab".to_string(), 0).unwrap();
    piece_table.add_text("cd".to_string(), 2).unwrap();
    piece_table.add_text("ef".to_string(), 4).unwrap();
    piece_table.delete_text(0, 6).unwrap();
    want_str = "";
    assert_eq!(piece_table.text_len(), want_str.len());
    assert_eq!(piece_table.text(), want_str.as_bytes());

    // the same, on tables that start with text from the file
    piece_table = table_from("abc");
    piece_table.delete_text(0, 1).unwrap();
    want_str = "bc";
    assert_eq!(piece_table.text_len(), want_str.len());
    assert_eq!(piece_table.text(), want_str.as_bytes());

    piece_table = table_from("");
    piece_table.add_text("abc".to_string(), 0).unwrap();
    piece_table.delete_text(1, 2).unwrap();
    want_str = "ac";
    assert_eq!(piece_table.text_len(), want_str.len());
    assert_eq!(piece_table.text(), want_str.as_bytes());

    piece_table = table_from("abc");
    piece_table.delete_text(2, 3).unwrap();
    want_str = "ab";
    assert_eq!(piece_table.text_len(), want_str.len());
    assert_eq!(piece_table.text(), want_str.as_bytes());

    piece_table = table_from("ab");
    piece_table.add_text("cd".to_string(), 2).unwrap();
    piece_table.delete_text(2, 3).unwrap();
    want_str = "abd";
    assert_eq!(piece_table.text_len(), want_str.len());
    assert_eq!(piece_table.text(), want_str.as_bytes());

    piece_table = table_from("ab");
    piece_table.add_text("cd".to_string(), 2).unwrap();
    piece_table.add_text("ef".to_string(), 4).unwrap();
    piece_table.delete_text(1, 5).unwrap();
    want_str = "af";
    assert_eq!(piece_table.text_len(), want_str.len());
    assert_eq!(piece_table.text(), want_str.as_bytes());

    piece_table = table_from("ab");
    piece_table.add_text("cd".to_string(), 2).unwrap();
    piece_table.add_text("ef".to_string(), 4).unwrap();
    piece_table.delete_text(1, 6).unwrap();
    want_str = "a";
    assert_eq!(piece_table.text_len(), want_str.len());
    assert_eq!(piece_table.text(), want_str.as_bytes());

    piece_table = table_from("ab");
    piece_table.add_text("cd".to_string(), 2).unwrap();
    piece_table.add_text("ef".to_string(), 4).unwrap();
    piece_table.delete_text(0, 6).unwrap();
    want_str = "";
    assert_eq!(piece_table.text_len(), want_str.len());
    assert_eq!(piece_table.text(), want_str.as_bytes());
}

#[test]
fn piece_table_undo_redo() {
    let mut piece_table = PieceTable::new();
    piece_table.add_text("abc".to_string(), 0).unwrap();
    piece_table.delete_text(0, 1).unwrap();
    let mut want_str = "abc";
    piece_table.undo().unwrap();
    assert_eq!(piece_table.text_len(), want_str.len());
    assert_eq!(piece_table.text(), want_str.as_bytes());

    piece_table.redo().unwrap();
    want_str = "bc";
    assert_eq!(piece_table.text_len(), want_str.len());
    assert_eq!(piece_table.text(), want_str.as_bytes());

    piece_table = PieceTable::new();
    piece_table.add_text("abc".to_string(), 0).unwrap();
    piece_table.add_text("d".to_string(), 3).unwrap(); // "abcd"
    piece_table.delete_text(0, 2).unwrap(); // "cd"
    piece_table.undo().unwrap();
    want_str = "abcd";
    assert_eq!(piece_table.text_len(), want_str.len());
    assert_eq!(piece_table.text(), want_str.as_bytes());
    piece_table.undo().unwrap();
    want_str = "abc";
    assert_eq!(piece_table.text_len(), want_str.len());
    assert_eq!(piece_table.text(), want_str.as_bytes());
    piece_table.redo().unwrap();
    want_str = "abcd";
    assert_eq!(piece_table.text_len(), want_str.len());
    assert_eq!(piece_table.text(), want_str.as_bytes());
    piece_table.redo().unwrap();
    want_str = "cd";
    assert_eq!(piece_table.text_len(), want_str.len());
    assert_eq!(piece_table.text(), want_str.as_bytes());

    // the same, on tables that start with text from the file
    piece_table = table_from("abc");
    piece_table.delete_text(0, 1).unwrap();
    want_str = "abc";
    piece_table.undo().unwrap();
    assert_eq!(piece_table.text_len(), want_str.len());
    assert_eq!(piece_table.text(), want_str.as_bytes());

    piece_table.redo().unwrap();
    want_str = "bc";
    assert_eq!(piece_table.text_len(), want_str.len());
    assert_eq!(piece_table.text(), want_str.as_bytes());

    piece_table = table_from("abc");
    piece_table.add_text("d".to_string(), 3).unwrap(); // "abcd"
    piece_table.delete_text(0, 2).unwrap(); // "cd"
    piece_table.undo().unwrap();
    want_str = "abcd";
    assert_eq!(piece_table.text_len(), want_str.len());
    assert_eq!(piece_table.text(), want_str.as_bytes());
    piece_table.undo().unwrap();
    want_str = "abc";
    assert_eq!(piece_table.text_len(), want_str.len());
    assert_eq!(piece_table.text(), want_str.as_bytes());
    piece_table.redo().unwrap();
    want_str = "abcd";
    assert_eq!(piece_table.text_len(), want_str.len());
    assert_eq!(piece_table.text(), want_str.as_bytes());
    piece_table.redo().unwrap();
    want_str = "cd";
    assert_eq!(piece_table.text_len(), want_str.len());
    assert_eq!(piece_table.text(), want_str.as_bytes());
}

#[test]
fn piece_table_edge_cases() {
    let mut piece_table = PieceTable::new();
    piece_table.add_text("\n".to_string(), 0).unwrap();
    let mut want_str = "\n";
    assert_eq!(want_str.len(), 1);
    assert_eq!(piece_table.text_len(), want_str.len());
    assert_eq!(piece_table.text(), want_str.as_bytes());

    piece_table = PieceTable::new();
    piece_table.add_text("\n\n\n\n".to_string(), 0).unwrap();
    want_str = "\n\n\n\n";
    assert_eq!(want_str.len(), 4);
    assert_eq!(piece_table.text_len(), want_str.len());
    assert_eq!(piece_table.text(), want_str.as_bytes());

    // one character of four bytes
    piece_table = PieceTable::new();
    piece_table.add_text("\u{1F600}".to_string(), 0).unwrap();
    want_str = "\u{1F600}";
    assert_eq!(want_str.len(), 4);
    assert_eq!(piece_table.text_len(), want_str.len());
    assert_eq!(piece_table.text(), want_str.as_bytes());

    // a letter and a combining accent
    piece_table = PieceTable::new();
    piece_table.add_text("e\u{301}".to_string(), 0).unwrap();
    want_str = "e\u{301}";
    assert_eq!(want_str.len(), 3);
    assert_eq!(want_str.chars().count(), 2);
    assert_eq!(piece_table.text_len(), want_str.len());
    assert_eq!(piece_table.text(), want_str.as_bytes());

    // the same bytes read as single-byte characters and written out again
    piece_table = PieceTable::new();
    piece_table.add_text("\u{f8ff}\u{fc}\u{f2}\u{c4}".to_string(), 0).unwrap();
    want_str = "\u{f8ff}\u{fc}\u{f2}\u{c4}";
    assert_eq!(want_str.chars().count(), 4);
    assert_eq!(piece_table.text_len(), want_str.len());
    assert_eq!(piece_table.text(), want_str.as_bytes());

    piece_table = PieceTable::new();
    piece_table.add_text("e\u{c3}\u{c5}".to_string(), 0).unwrap();
    want_str = "e\u{c3}\u{c5}";
    assert_eq!(want_str.chars().count(), 3);
    assert_eq!(piece_table.text_len(), want_str.len());
    assert_eq!(piece_table.text(), want_str.as_bytes());
}

#[test]
fn insertion_split() {
    let mut table = PieceTable::new();
    table.add_text("abc".to_string(), 0).unwrap();
    table.add_text("d".to_string(), 3).unwrap();
    table.delete_text(0, 2).unwrap();
    assert_eq!(table.text(), b"cd");
    table.undo().unwrap();
    assert_eq!(table.text(), b"abcd");
    table.undo().unwrap();
    assert_eq!(table.text(), b"abc");
    table.redo().unwrap();
    assert_eq!(table.text(), b"abcd");
    table.redo().unwrap();
    assert_eq!(table.text(), b"cd");
}

#[test]
fn tri_split_delete() {
    let mut table = PieceTable::new();
    table.add_text("ab".to_string(), 0).unwrap();
    table.add_text("cd".to_string(), 2).unwrap();
    table.add_text("ef".to_string(), 4).unwrap();
    table.delete_text(1, 5).unwrap();
    assert_eq!(table.text(), b"af");
    assert_eq!(table.text_len(), 2);
}

#[test]
fn history_isolation() {
    let mut table = PieceTable::new();
    table.add_text("a".to_string(), 0).unwrap();
    table.undo().unwrap();
    table.add_text("b".to_string(), 0).unwrap();
    assert_eq!(table.redo(), Err(Error::NothingToRedo));
    assert_eq!(table.text(), b"b");
}

#[test]
fn insert_out_of_range_changes_nothing() {
    let mut table = PieceTable::new();
    table.add_text("abc".to_string(), 0).unwrap();
    assert_eq!(table.add_text("x".to_string(), 4), Err(Error::OutOfRange));
    assert_eq!(table.text(), b"abc");
    assert_eq!(table.text_len(), 3);
    // the failed insertion is no action
    table.undo().unwrap();
    assert_eq!(table.text(), b"");
    assert_eq!(table.undo(), Err(Error::NothingToUndo));
}

#[test]
fn delete_out_of_range_changes_nothing() {
    let mut table = PieceTable::new();
    table.add_text("abc".to_string(), 0).unwrap();
    assert_eq!(table.delete_text(0, 0), Err(Error::OutOfRange));
    assert_eq!(table.delete_text(1, 1), Err(Error::OutOfRange));
    assert_eq!(table.delete_text(2, 1), Err(Error::OutOfRange));
    assert_eq!(table.delete_text(0, 4), Err(Error::OutOfRange));
    assert_eq!(table.delete_text(3, 4), Err(Error::OutOfRange));
    assert_eq!(table.text(), b"abc");
    table.undo().unwrap();
    assert_eq!(table.undo(), Err(Error::NothingToUndo));
}

#[test]
fn undo_and_redo_at_the_ends_of_history() {
    let mut table = PieceTable::new();
    assert_eq!(table.undo(), Err(Error::NothingToUndo));
    assert_eq!(table.redo(), Err(Error::NothingToRedo));
    assert!(!table.actions_taken());
    table.add_text("x".to_string(), 0).unwrap();
    assert!(table.actions_taken());
    assert_eq!(table.redo(), Err(Error::NothingToRedo));
    table.undo().unwrap();
    assert_eq!(table.undo(), Err(Error::NothingToUndo));
    // an action that was undone still counts as taken
    assert!(table.actions_taken());
}

#[test]
fn text_length_matches_text_after_every_step() {
    let mut table = PieceTable::new();
    let steps: Vec<(bool, &str, usize, usize)> = vec![
        (true, "hello world", 0, 0),
        (true, ", dear", 5, 0),
        (false, "", 0, 3),
        (true, "", 2, 0),
        (false, "", 4, 9),
        (true, "xyz", 1, 0),
        (false, "", 0, 1),
        (true, "tail", 9, 0),
    ];
    let mut model: Vec<u8> = Vec::new();
    for (is_insert, text, a, b) in steps {
        if is_insert {
            table.add_text(text.to_string(), a).unwrap();
            let rest = model.split_off(a);
            model.extend_from_slice(text.as_bytes());
            model.extend_from_slice(&rest);
        } else {
            table.delete_text(a, b).unwrap();
            model.drain(a..b);
        }
        assert_eq!(table.text_len(), model.len());
        assert_eq!(table.text().len(), table.text_len());
        assert_eq!(table.text(), &model);
    }
}

#[test]
fn insert_then_delete_gives_the_document_back() {
    for at in 0..=6 {
        let mut table = PieceTable::new();
        table.add_text("abc".to_string(), 0).unwrap();
        table.add_text("def".to_string(), 3).unwrap();
        table.add_text("XY".to_string(), at).unwrap();
        table.delete_text(at, at + 2).unwrap();
        assert_eq!(table.text(), b"abcdef");
        assert_eq!(table.text_len(), 6);
    }
}

#[test]
fn undo_then_redo_and_redo_then_undo_are_identities() {
    let mut table = PieceTable::new();
    table.add_text("abcdef".to_string(), 0).unwrap();
    table.delete_text(1, 4).unwrap();
    table.add_text("Z".to_string(), 2).unwrap();
    assert_eq!(table.text(), b"aeZf");
    table.undo().unwrap();
    table.redo().unwrap();
    assert_eq!(table.text(), b"aeZf");
    table.undo().unwrap();
    assert_eq!(table.text(), b"aef");
    table.redo().unwrap();
    table.undo().unwrap();
    assert_eq!(table.text(), b"aef");
}

#[test]
fn n_undos_then_n_redos_are_the_identity() {
    let mut table = PieceTable::new();
    table.add_text("one".to_string(), 0).unwrap();
    table.add_text(" two".to_string(), 3).unwrap();
    table.delete_text(2, 5).unwrap();
    table.add_text("-".to_string(), 1).unwrap();
    let want = table.text().clone();
    let versions: [&[u8]; 5] = [b"", b"one", b"one two", b"onwo", b"o-nwo"];
    assert_eq!(&want, versions[4]);
    for n in 1..=4 {
        for k in 0..n {
            table.undo().unwrap();
            assert_eq!(table.text(), versions[4 - k - 1]);
        }
        for _ in 0..n {
            table.redo().unwrap();
        }
        assert_eq!(table.text(), &want);
    }
}

#[test]
fn a_mutation_after_undo_forgets_the_redo_tail() {
    let mut table = PieceTable::new();
    table.add_text("abc".to_string(), 0).unwrap();
    table.add_text("def".to_string(), 3).unwrap();
    table.undo().unwrap();
    table.delete_text(0, 1).unwrap();
    assert_eq!(table.redo(), Err(Error::NothingToRedo));
    assert_eq!(table.text(), b"bc");
    table.undo().unwrap();
    assert_eq!(table.text(), b"abc");
    table.undo().unwrap();
    assert_eq!(table.text(), b"");
}

#[test]
fn text_read_from_the_file_is_not_an_action() {
    let mut table = PieceTable::new();
    table.update_original_buffer(b"first\n");
    assert!(!table.actions_taken());
    assert_eq!(table.undo(), Err(Error::NothingToUndo));
    table.add_text("X".to_string(), 0).unwrap();
    table.update_original_buffer(b"second\n");
    assert_eq!(table.text(), b"Xfirst\nsecond\n");
    table.undo().unwrap();
    assert_eq!(table.text(), b"first\nsecond\n");
    table.redo().unwrap();
    assert_eq!(table.text(), b"Xfirst\nsecond\n");
    assert_eq!(table.text_len(), 14);
}

#[test]
fn undo_works_across_splits_of_earlier_pieces() {
    let mut table = PieceTable::new();
    table.add_text("0123456789".to_string(), 0).unwrap();
    table.add_text("a".to_string(), 5).unwrap();
    table.add_text("b".to_string(), 2).unwrap();
    table.add_text("c".to_string(), 9).unwrap();
    table.delete_text(1, 11).unwrap();
    assert_eq!(table.text(), b"089");
    table.undo().unwrap();
    assert_eq!(table.text(), b"01b234a56c789");
    table.undo().unwrap();
    assert_eq!(table.text(), b"01b234a56789");
    table.undo().unwrap();
    assert_eq!(table.text(), b"01234a56789");
    table.undo().unwrap();
    assert_eq!(table.text(), b"0123456789");
    table.redo().unwrap();
    table.redo().unwrap();
    table.redo().unwrap();
    table.redo().unwrap();
    assert_eq!(table.text(), b"089");
}

#[test]
fn table_entry_starts_visible_and_switches() {
    let mut entry = TableEntry::new(true, 2, 5);
    assert!(entry.is_add_buffer);
    assert_eq!(entry.start_index, 2);
    assert_eq!(entry.end_index, 5);
    assert!(entry.active);
    entry.switch();
    assert!(!entry.active);
    entry.switch();
    assert!(entry.active);
}

#[test]
fn table_entry_text_reads_the_named_buffer() {
    let mut table = PieceTable::new();
    table.update_original_buffer(b"original");
    table.add_text("added".to_string(), 0).unwrap();
    assert_eq!(table.table_entry_text(&TableEntry::new(false, 1, 4)), b"rig");
    assert_eq!(table.table_entry_text(&TableEntry::new(true, 0, 3)), b"add");
    assert_eq!(table.table_entry_text(&TableEntry::new(true, 5, 5)), b"");
}

#[test]
fn raw_entries_can_be_put_into_the_table() {
    let mut table = PieceTable::new();
    table.update_original_buffer(b"abcdef");
    table.delete_text(0, 6).unwrap();
    // a hidden entry changes nothing
    let mut hidden = TableEntry::new(false, 0, 3);
    hidden.switch();
    table.insert(0, hidden);
    table.push(hidden);
    assert_eq!(table.text(), b"");
    // the history still names the entries it named
    table.undo().unwrap();
    assert_eq!(table.text(), b"abcdef");
    table.redo().unwrap();
    assert_eq!(table.text(), b"");
    // visible entries show their bytes where they are put
    table.push(TableEntry::new(false, 3, 6));
    table.insert(0, TableEntry::new(false, 0, 3));
    assert_eq!(table.text(), b"abcdef");
    assert_eq!(table.text_len(), 6);
}

#[test]
fn add_action_records_a_change_made_by_hand() {
    let mut table = PieceTable::new();
    table.update_original_buffer(b"abc");
    let mut hidden = TableEntry::new(false, 0, 1);
    hidden.switch();
    table.push(hidden);
    // nothing was changed, so the empty action describes it
    table.add_action(Vec::new());
    assert!(table.actions_taken());
    table.undo().unwrap();
    assert_eq!(table.text(), b"abc");
    assert_eq!(table.undo(), Err(Error::NothingToUndo));
}

#[test]
fn empty_insertions_are_actions_too() {
    let mut table = PieceTable::new();
    table.add_text("ab".to_string(), 0).unwrap();
    table.add_text(String::new(), 1).unwrap();
    assert_eq!(table.text(), b"ab");
    table.add_text("c".to_string(), 1).unwrap();
    assert_eq!(table.text(), b"acb");
    table.delete_text(0, 3).unwrap();
    assert_eq!(table.text(), b"");
    table.undo().unwrap();
    table.undo().unwrap();
    table.undo().unwrap();
    assert_eq!(table.text(), b"ab");
    table.undo().unwrap();
    assert_eq!(table.text(), b"");
}

#[test]
fn update_text_keeps_the_document() {
    let mut table = PieceTable::new();
    table.add_text("abc".to_string(), 0).unwrap();
    table.update_text();
    table.update_text();
    assert_eq!(table.text(), b"abc");
}

#[test]
fn errors_describe_themselves() {
    assert!(Error::NothingToUndo.is_recoverable());
    assert!(Error::NothingToRedo.is_recoverable());
    assert!(!Error::OutOfRange.is_recoverable());
    assert!(!Error::UnsupportedTarget.is_recoverable());
    assert!(!Error::IoFailure.is_recoverable());
    assert_eq!(Error::OutOfRange.message(), "position out of range");
    assert_eq!(Error::NothingToUndo.message(), "nothing to undo");
    assert_eq!(Error::NothingToRedo.message(), "nothing to redo");
    assert_eq!(Error::UnsupportedTarget.message(), "cannot edit a directory");
    assert_eq!(Error::IoFailure.message(), "reading the file failed");
}

#[test]
fn line_gives_the_lines_without_their_endings() {
    let mut table = PieceTable::new();
    table.add_text("one\ntwo\r\n\nfour".to_string(), 0).unwrap();
    assert_eq!(table.line(0), Ok(&b"one"[..]));
    assert_eq!(table.line(1), Ok(&b"two"[..]));
    assert_eq!(table.line(2), Ok(&b""[..]));
    assert_eq!(table.line(3), Ok(&b"four"[..]));
    assert_eq!(table.line(4), Err(Error::OutOfRange));
}

#[test]
fn a_final_newline_begins_no_line() {
    let mut table = PieceTable::new();
    assert_eq!(table.line(0), Err(Error::OutOfRange));
    table.add_text("a\nb\n".to_string(), 0).unwrap();
    assert_eq!(table.line(1), Ok(&b"b"[..]));
    assert_eq!(table.line(2), Err(Error::OutOfRange));
    table.add_text("\n".to_string(), 4).unwrap();
    assert_eq!(table.line(2), Ok(&b""[..]));
    assert_eq!(table.line(3), Err(Error::OutOfRange));
    // a carriage return that is not before a newline belongs to the line
    table.add_text("c\r".to_string(), 5).unwrap();
    assert_eq!(table.line(3), Ok(&b"c\r"[..]));
}

#[test]
fn buffer_lengths_count_what_was_read_and_typed() {
    let mut table = PieceTable::new();
    assert_eq!(table.buffer_lens(), (0, 0));
    table.update_original_buffer(b"abcd");
    table.add_text("xy".to_string(), 1).unwrap();
    table.delete_text(0, 6).unwrap();
    assert_eq!(table.buffer_lens(), (4, 2));
    assert_eq!(table.text_len(), 0);
}

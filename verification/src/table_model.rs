//! The piece table as a mathematical value, and the edits as functions on it.
//!
//! A [`TableModel`] holds the two buffers, the table entries, the history of
//! actions and the history cursor. An action is the list of the indices of
//! the entries whose visibility it inverts; applying it once performs the
//! edit, applying it again takes the edit back. Version `k` of the document
//! is what the table shows with exactly the first `k` actions applied.

use vstd::prelude::*;
use crate::pieces::{
    TableEntry, action_ok, all_fit, offset_of, shifted_all, shown_text, shown_total, toggled,
};

verus! {

/// The table with the actions `to..from` taken back, latest first.
pub open spec fn rewound(
    pieces: Seq<TableEntry>,
    history: Seq<Seq<usize>>,
    from: int,
    to: int,
) -> Seq<TableEntry>
    decreases from - to,
{
    if from <= to {
        pieces
    } else {
        rewound(toggled(pieces, history[from - 1]), history, from - 1, to)
    }
}

/// The table with the actions `from..to` applied, earliest first.
pub open spec fn replayed(
    pieces: Seq<TableEntry>,
    history: Seq<Seq<usize>>,
    from: int,
    to: int,
) -> Seq<TableEntry>
    decreases to - from,
{
    if to <= from {
        pieces
    } else {
        replayed(toggled(pieces, history[from]), history, from + 1, to)
    }
}

/// The indices in `from..to` of the visible entries, ascending.
pub open spec fn visible_between(pieces: Seq<TableEntry>, from: int, to: int) -> Seq<usize>
    decreases to - from,
{
    if to <= from {
        Seq::empty()
    } else if pieces[to - 1].active {
        visible_between(pieces, from, to - 1).push((to - 1) as usize)
    } else {
        visible_between(pieces, from, to - 1)
    }
}

/// The first `head` bytes of entry `first`, as an entry of its own.
pub open spec fn left_rest(pieces: Seq<TableEntry>, first: int, head: int) -> TableEntry {
    TableEntry { end_index: (pieces[first].start_index + head) as usize, ..pieces[first] }
}

/// The last `tail` bytes of entry `last`, as an entry of its own.
pub open spec fn right_rest(pieces: Seq<TableEntry>, last: int, tail: int) -> TableEntry {
    TableEntry { start_index: (pieces[last].end_index - tail) as usize, ..pieces[last] }
}

/// The state of a piece table.
pub struct TableModel {
    /// Bytes read from the file; only ever appended to.
    pub original: Seq<u8>,
    /// Bytes typed by the user; only ever appended to.
    pub add: Seq<u8>,
    /// The table entries, in document order.
    pub pieces: Seq<TableEntry>,
    /// The actions, oldest first.
    pub history: Seq<Seq<usize>>,
    /// How many actions are applied: those before the cursor can be
    /// undone, those from it on can be redone.
    pub cursor: int,
}

impl TableModel {
    /// The table with nothing in it.
    pub open spec fn empty() -> TableModel {
        TableModel {
            original: Seq::empty(),
            add: Seq::empty(),
            pieces: Seq::empty(),
            history: Seq::empty(),
            cursor: 0,
        }
    }

    /// The document.
    pub open spec fn doc(self) -> Seq<u8> {
        shown_text(self.original, self.add, self.pieces)
    }

    /// The document's length.
    pub open spec fn len(self) -> int {
        shown_total(self.pieces)
    }

    /// The entries as they are with exactly the first `k` actions applied.
    pub open spec fn pieces_at(self, k: int) -> Seq<TableEntry> {
        if k <= self.cursor {
            rewound(self.pieces, self.history, self.cursor, k)
        } else {
            replayed(self.pieces, self.history, self.cursor, k)
        }
    }

    /// The document with exactly the first `k` actions applied.
    pub open spec fn version(self, k: int) -> Seq<u8> {
        shown_text(self.original, self.add, self.pieces_at(k))
    }

    /// The table can be counted in a `usize`, ranges lie inside their
    /// buffers, the cursor lies inside the history, and every action
    /// names entries of the table, each once.
    pub open spec fn structure(self) -> bool {
        &&& self.pieces.len() <= usize::MAX
        &&& all_fit(self.pieces, self.original.len() as int, self.add.len() as int)
        &&& 0 <= self.cursor <= self.history.len()
        &&& forall|j: int|
            0 <= j < self.history.len() ==> action_ok(
                #[trigger] self.history[j],
                self.pieces.len() as int,
            )
    }

    /// No version of the document is longer than the two buffers
    /// together, and their lengths together can be held in a `usize`.
    pub open spec fn bounded(self) -> bool {
        &&& self.original.len() + self.add.len() <= usize::MAX
        &&& forall|k: int|
            0 <= k <= self.history.len() ==> (#[trigger] self.version(k)).len()
                <= self.original.len() + self.add.len()
    }

    /// The state is one that a piece table can be in.
    pub open spec fn wf(self) -> bool {
        &&& self.structure()
        &&& self.bounded()
    }

    /// Entry `i` is visible and holds the document's byte `pos`.
    pub open spec fn holds(self, i: int, pos: int) -> bool {
        &&& 0 <= i < self.pieces.len()
        &&& self.pieces[i].active
        &&& offset_of(self.pieces, i) <= pos < offset_of(self.pieces, i) + self.pieces[i].len()
    }

    /// The entry that holds the document's byte `pos`.
    pub open spec fn holder(self, pos: int) -> int {
        choose|i: int| self.holds(i, pos)
    }

    /// `bytes` read from the file: appended to the original buffer and
    /// shown by one new entry at the end of the table. No action is
    /// recorded.
    pub open spec fn append_original(self, bytes: Seq<u8>) -> TableModel {
        TableModel {
            original: self.original + bytes,
            pieces: self.pieces.push(
                TableEntry {
                    is_add_buffer: false,
                    start_index: self.original.len() as usize,
                    end_index: (self.original.len() + bytes.len()) as usize,
                    active: true,
                },
            ),
            ..self
        }
    }

    /// `entry` put into the table at `index`; every action is rewritten
    /// so that it names the same entries as before.
    pub open spec fn with_piece(self, index: int, entry: TableEntry) -> TableModel {
        TableModel {
            pieces: self.pieces.insert(index, entry),
            history: shifted_all(self.history, index, 1),
            ..self
        }
    }

    /// `entry` put at the end of the table.
    pub open spec fn with_last(self, entry: TableEntry) -> TableModel {
        TableModel { pieces: self.pieces.push(entry), ..self }
    }

    /// The actions that could be redone are forgotten.
    pub open spec fn pruned(self) -> TableModel {
        TableModel { history: self.history.take(self.cursor), ..self }
    }

    /// The visibility of the entries that `action` lists is inverted.
    pub open spec fn switched(self, action: Seq<usize>) -> TableModel {
        TableModel { pieces: toggled(self.pieces, action), ..self }
    }

    /// `action` becomes the latest applied action: the actions that could
    /// be redone are forgotten, `action` is appended, and the cursor
    /// moves behind it.
    pub open spec fn record(self, action: Seq<usize>) -> TableModel {
        TableModel {
            history: self.history.take(self.cursor).push(action),
            cursor: self.cursor + 1,
            ..self
        }
    }

    /// The latest applied action is taken back.
    pub open spec fn undo(self) -> TableModel {
        TableModel {
            pieces: toggled(self.pieces, self.history[self.cursor - 1]),
            cursor: self.cursor - 1,
            ..self
        }
    }

    /// The earliest action that was taken back is applied again.
    pub open spec fn redo(self) -> TableModel {
        TableModel {
            pieces: toggled(self.pieces, self.history[self.cursor]),
            cursor: self.cursor + 1,
            ..self
        }
    }

    /// The visibility of the entries that `action` lists is inverted,
    /// and `action` becomes the latest applied action.
    pub open spec fn commit(self, action: Seq<usize>) -> TableModel {
        self.switched(action).record(action)
    }

    /// The new entry that shows `text`, which is about to be appended to
    /// the add buffer.
    pub open spec fn fresh_entry(self, text: Seq<u8>) -> TableEntry {
        TableEntry {
            is_add_buffer: true,
            start_index: self.add.len() as usize,
            end_index: (self.add.len() + text.len()) as usize,
            active: true,
        }
    }

    /// The visible entry `fresh` goes into the table at `index`, as an
    /// action of its own.
    pub open spec fn put_whole(self, index: int, fresh: TableEntry) -> TableModel {
        self.with_piece(index, fresh.hidden()).commit(seq![index as usize])
    }

    /// The visible entry `i` is cut after its first `cut` bytes, and the
    /// visible entry `fresh` goes between the two parts: entry `i` is
    /// hidden, and before it go its left part, `fresh` and its right
    /// part. The action lists the three entries made and the entry
    /// hidden.
    pub open spec fn put_cut(self, i: int, cut: int, fresh: TableEntry) -> TableModel {
        let p = self.pieces[i];
        let left = TableEntry { end_index: (p.start_index + cut) as usize, ..p };
        let right = TableEntry { start_index: (p.start_index + cut) as usize, ..p };
        self.with_piece(i, right.hidden()).with_piece(i, fresh.hidden()).with_piece(
            i,
            left.hidden(),
        ).commit(seq![i as usize, (i + 1) as usize, (i + 2) as usize, (i + 3) as usize])
    }

    /// The visible entry `fresh` is shown before the document's byte `at`
    /// (`0 <= at <= self.len()`).
    ///
    /// At offset 0 the entry becomes the first of the table, at the
    /// document's end the last. Where `at` is the first byte of a visible
    /// entry, the new entry goes in before that one. Otherwise `at` lies
    /// inside a visible entry, which is cut there.
    pub open spec fn place(self, fresh: TableEntry, at: int) -> TableModel {
        if at <= 0 {
            self.put_whole(0, fresh)
        } else if at >= self.len() {
            self.put_whole(self.pieces.len() as int, fresh)
        } else {
            let i = self.holder(at);
            let cut = at - offset_of(self.pieces, i);
            if cut == 0 {
                self.put_whole(i, fresh)
            } else {
                self.put_cut(i, cut, fresh)
            }
        }
    }

    /// The state in which an insertion of `text` places its entry: the
    /// add buffer holds `text`, and the actions that could be redone are
    /// forgotten.
    pub open spec fn ready_for(self, text: Seq<u8>) -> TableModel {
        TableModel { add: self.add + text, ..self.pruned() }
    }

    /// `text` inserted before the document's byte `at`
    /// (`0 <= at <= self.len()`): the text is appended to the add buffer
    /// and shown by a new entry, placed as [`Self::place`] says.
    pub open spec fn insert(self, text: Seq<u8>, at: int) -> TableModel {
        self.ready_for(text).place(self.fresh_entry(text), at)
    }

    /// The table made ready for taking out the entries from `first` to
    /// `last`: where `tail > 0`, a hidden entry for the last `tail` bytes
    /// of entry `last` goes in right behind that entry; where `head > 0`,
    /// a hidden entry for the first `head` bytes of entry `first` goes in
    /// right behind that one.
    pub open spec fn staged_out(self, first: int, last: int, head: int, tail: int) -> TableModel {
        let staged_right = if tail > 0 {
            self.with_piece(last + 1, right_rest(self.pieces, last, tail).hidden())
        } else {
            self
        };
        if head > 0 {
            staged_right.with_piece(first + 1, left_rest(self.pieces, first, head).hidden())
        } else {
            staged_right
        }
    }

    /// The action that takes the entries from `first` to `last` out of
    /// the table that [`Self::staged_out`] made ready: it lists the
    /// visible entries among them, in table order, then the entry for the
    /// first bytes, then the entry for the last bytes.
    pub open spec fn out_action(self, first: int, last: int, head: int, tail: int) -> Seq<usize> {
        let dl: int = if head > 0 {
            1
        } else {
            0
        };
        let retired = visible_between(
            self.staged_out(first, last, head, tail).pieces,
            first,
            last + dl + 1,
        );
        let with_left = if head > 0 {
            retired.push((first + 1) as usize)
        } else {
            retired
        };
        if tail > 0 {
            with_left.push((last + dl + 1) as usize)
        } else {
            with_left
        }
    }

    /// The visible entries from `first` to `last` are hidden; the first
    /// `head` bytes of entry `first` and the last `tail` bytes of entry
    /// `last` stay in the document, shown by new entries.
    pub open spec fn take_out(self, first: int, last: int, head: int, tail: int) -> TableModel {
        self.staged_out(first, last, head, tail).commit(self.out_action(first, last, head, tail))
    }

    /// The document's bytes `lo..hi` deleted (`0 <= lo < hi <= self.len()`).
    ///
    /// The actions that could be redone are forgotten. Every visible
    /// entry from the one that holds byte `lo` to the one that holds byte
    /// `hi - 1` is hidden, and what the first and the last of them showed
    /// outside `lo..hi` is shown by new entries, as [`Self::take_out`]
    /// says.
    pub open spec fn delete(self, lo: int, hi: int) -> TableModel {
        let first = self.holder(lo);
        let last = self.holder(hi - 1);
        self.pruned().take_out(
            first,
            last,
            lo - offset_of(self.pieces, first),
            offset_of(self.pieces, last) + self.pieces[last].len() - hi,
        )
    }
}

} // verus!

//! The piece table: the document as a list of slices of two append-only
//! buffers, with a history of edits that can be undone and redone.

use vstd::prelude::*;
use vstd::slice::slice_subrange;
use vstd::utf8::encode_utf8;
use crate::error::Error;
use crate::pieces::{
    TableEntry, action_ok, lemma_shown_total_not_negative, moved, offset_of, shifted, shown_text,
    shown_total, toggled,
};
use crate::table_model::{TableModel, visible_between};
use crate::history_laws::{
    lemma_append_original, lemma_holder_unique, lemma_switch_one, lemma_toggled_step,
    lemma_undo_keeps_versions, lemma_redo_keeps_versions, lemma_undo_redo_wf,
    lemma_with_hidden_piece, lemma_shown_with_piece, lemma_with_last, lemma_structure_with_piece,
};
use crate::edit_laws::{lemma_current_version, lemma_doc_len, lemma_insert};
use crate::lines::{
    CARRIAGE_RETURN, NEWLINE, find_line_end, lemma_line_end, lemma_line_end_of_rest, nth_line,
    without_line_ending,
};

verus! {

/// Appends `bytes` to `buffer`.
pub(crate) fn append_bytes(buffer: &mut Vec<u8>, bytes: &[u8])
    ensures
        final(buffer)@ == old(buffer)@ + bytes@,
{
    let mut i: usize = 0;
    while i < bytes.len()
        invariant
            i <= bytes.len(),
            buffer@ == old(buffer)@ + bytes@.take(i as int),
        decreases bytes.len() - i,
    {
        buffer.push(bytes[i]);
        i = i + 1;
        assert(buffer@ =~= old(buffer)@ + bytes@.take(i as int));
    }
    assert(bytes@.take(bytes@.len() as int) =~= bytes@);
}

/// Rewrites `actions` for one entry put into the table at `index`.
fn shift_actions(actions: &mut Vec<Vec<usize>>, index: usize, table_len: usize)
    requires
        index <= table_len < usize::MAX,
        forall|j: int|
            0 <= j < old(actions)@.len() ==> action_ok(
                (#[trigger] old(actions)@[j])@,
                table_len as int,
            ),
    ensures
        final(actions)@.len() == old(actions)@.len(),
        forall|j: int|
            0 <= j < old(actions)@.len() ==> (#[trigger] final(actions)@[j])@ == shifted(
                old(actions)@[j]@,
                index as int,
                1,
            ),
{
    let mut j: usize = 0;
    while j < actions.len()
        invariant
            j <= actions.len(),
            actions@.len() == old(actions)@.len(),
            index <= table_len < usize::MAX,
            forall|u: int|
                0 <= u < j ==> (#[trigger] actions@[u])@ == shifted(
                    old(actions)@[u]@,
                    index as int,
                    1,
                ),
            forall|u: int| j <= u < actions@.len() ==> #[trigger] actions@[u] == old(actions)@[u],
            forall|u: int|
                0 <= u < old(actions)@.len() ==> action_ok(
                    (#[trigger] old(actions)@[u])@,
                    table_len as int,
                ),
        decreases actions.len() - j,
    {
        let ghost before = actions@[j as int]@;
        assert(action_ok(old(actions)@[j as int]@, table_len as int));
        let mut t: usize = 0;
        while t < actions[j].len()
            invariant
                j < actions.len(),
                actions@.len() == old(actions)@.len(),
                index <= table_len < usize::MAX,
                t <= actions@[j as int]@.len(),
                actions@[j as int]@.len() == before.len(),
                action_ok(before, table_len as int),
                forall|u: int|
                    0 <= u < j ==> (#[trigger] actions@[u])@ == shifted(
                        old(actions)@[u]@,
                        index as int,
                        1,
                    ),
                forall|u: int|
                    j < u < actions@.len() ==> #[trigger] actions@[u] == old(actions)@[u],
                forall|v: int|
                    0 <= v < t ==> #[trigger] actions@[j as int]@[v] == moved(
                        before[v],
                        index as int,
                        1,
                    ),
                forall|v: int|
                    t <= v < before.len() ==> #[trigger] actions@[j as int]@[v] == before[v],
            decreases actions@[j as int]@.len() - t,
        {
            let v: usize = actions[j][t];
            assert(before[t as int] < table_len);
            if v >= index {
                actions[j][t] = v + 1;
            }
            t = t + 1;
        }
        assert(actions@[j as int]@ =~= shifted(before, index as int, 1));
        j = j + 1;
    }
}

/// Inverts the visibility of the entries of `table` that `action` lists,
/// and returns the document's new length.
fn switch_entries(table: &mut Vec<TableEntry>, action: &Vec<usize>, text_len: usize) -> (new_len:
    usize)
    requires
        action_ok(action@, old(table)@.len() as int),
        forall|i: int|
            0 <= i < old(table)@.len() ==> (#[trigger] old(table)@[i]).start_index
                <= old(table)@[i].end_index,
        text_len == shown_total(old(table)@),
        shown_total(toggled(old(table)@, action@)) <= usize::MAX,
    ensures
        final(table)@ == toggled(old(table)@, action@),
        new_len == shown_total(final(table)@),
{
    let mut grow: u128 = 0;
    let mut shrink: u128 = 0;
    let mut t: usize = 0;
    proof {
        assert(table@ =~= toggled(old(table)@, action@.take(0)));
    }
    while t < action.len()
        invariant
            t <= action@.len(),
            action_ok(action@, old(table)@.len() as int),
            forall|i: int|
                0 <= i < old(table)@.len() ==> (#[trigger] old(table)@[i]).start_index
                <= old(table)@[i].end_index,
            table@ == toggled(old(table)@, action@.take(t as int)),
            text_len + grow - shrink == shown_total(table@),
            grow <= t * 0xffff_ffff_ffff_ffff,
            shrink <= t * 0xffff_ffff_ffff_ffff,
        decreases action@.len() - t,
    {
        let index: usize = action[t];
        proof {
            lemma_toggled_step(old(table)@, action@, t as int);
            lemma_switch_one(table@, index as int, old(table)@[index as int].flipped());
            assert(old(table)@[index as int].start_index <= old(table)@[index as int].end_index);
        }
        let mut entry = table[index];
        let len: usize = entry.end_index - entry.start_index;
        if entry.active {
            shrink = shrink + len as u128;
        } else {
            grow = grow + len as u128;
        }
        entry.switch();
        table[index] = entry;
        t = t + 1;
    }
    proof {
        assert(action@.take(action@.len() as int) =~= action@);
        lemma_shown_total_not_negative(table@);
    }
    (text_len as u128 + grow - shrink) as usize
}

/// The main structure for storing text.
pub struct PieceTable {
    /// The table entries, in document order.
    table: Vec<TableEntry>,
    /// Bytes read from the file.
    original_buffer: Vec<u8>,
    /// Bytes typed by the user.
    add_buffer: Vec<u8>,
    /// The document, when `text_up_to_date` holds.
    text: Vec<u8>,
    /// Length of the document.
    text_len: usize,
    /// Whether `text` is the document.
    text_up_to_date: bool,
    /// The actions, each the list of the indices of the entries that it switches.
    actions: Vec<Vec<usize>>,
    /// How many of the actions are applied.
    actions_index: usize,
}

impl View for PieceTable {
    type V = TableModel;

    closed spec fn view(&self) -> TableModel {
        TableModel {
            original: self.original_buffer@,
            add: self.add_buffer@,
            pieces: self.table@,
            history: Seq::new(self.actions@.len(), |j: int| self.actions@[j]@),
            cursor: self.actions_index as int,
        }
    }
}

impl PieceTable {
    /// The fields agree with each other: the state is well structured,
    /// the stored length is the document's, and the cached text, where
    /// it is marked as up to date, is the document.
    pub closed spec fn consistent(&self) -> bool {
        &&& self@.structure()
        &&& self.text_len == self@.len()
        &&& self.text_up_to_date ==> self.text@ == self@.doc()
    }

    /// The table is one that the operations can work on.
    pub open spec fn wf(&self) -> bool {
        &&& self.consistent()
        &&& self@.wf()
    }

    /// An empty piece table.
    pub fn new() -> (table: PieceTable)
        ensures
            table.wf(),
            table@ == TableModel::empty(),
    {
        let table = PieceTable {
            table: Vec::new(),
            original_buffer: Vec::new(),
            add_buffer: Vec::new(),
            text: Vec::new(),
            text_len: 0,
            text_up_to_date: true,
            actions: Vec::new(),
            actions_index: 0,
        };
        proof {
            assert(table@.history =~= Seq::<Seq<usize>>::empty());
            assert(table@.pieces =~= Seq::<TableEntry>::empty());
            assert forall|k: int| 0 <= k <= table@.history.len() implies (
            #[trigger] table@.version(k)).len() <= 0 by {
                crate::edit_laws::lemma_current_version(table@);
            }
        }
        table
    }

    /// Whether any action has been recorded.
    pub fn actions_taken(&self) -> (taken: bool)
        ensures
            taken == (self@.history.len() > 0),
    {
        proof {
            assert(self@.history.len() == self.actions@.len());
        }
        !self.actions.is_empty()
    }

    /// How many bytes the original buffer and the add buffer hold.
    pub fn buffer_lens(&self) -> (lens: (usize, usize))
        ensures
            lens.0 == self@.original.len(),
            lens.1 == self@.add.len(),
    {
        (self.original_buffer.len(), self.add_buffer.len())
    }

    /// Length of the document.
    pub fn text_len(&self) -> (len: usize)
        requires
            self.wf(),
        ensures
            len == self@.doc().len(),
            len == self@.len(),
    {
        proof {
            crate::edit_laws::lemma_doc_len(self@);
        }
        self.text_len
    }

    /// The bytes of the buffer range that `table_entry` names.
    pub fn table_entry_text(&self, table_entry: &TableEntry) -> (bytes: &[u8])
        requires
            table_entry.fits_in(self@.original.len() as int, self@.add.len() as int),
        ensures
            bytes@ == table_entry.bytes(self@.original, self@.add),
    {
        if table_entry.is_add_buffer {
            slice_subrange(
                self.add_buffer.as_slice(),
                table_entry.start_index,
                table_entry.end_index,
            )
        } else {
            slice_subrange(
                self.original_buffer.as_slice(),
                table_entry.start_index,
                table_entry.end_index,
            )
        }
    }

    /// Reads more of the file: `text` is appended to the original buffer
    /// and shown at the end of the document by one new entry. This is
    /// no action: it cannot be undone.
    pub fn update_original_buffer(&mut self, text: &[u8])
        requires
            old(self).wf(),
            old(self)@.original.len() + old(self)@.add.len() + text@.len() <= usize::MAX,
        ensures
            final(self).wf(),
            final(self)@ == old(self)@.append_original(text@),
            !final(self).text_is_fresh(),
            final(self)@.doc() == old(self)@.doc() + text@,
            forall|k: int|
                0 <= k <= old(self)@.history.len() ==> #[trigger] final(self)@.version(k)
                    == old(self)@.version(k) + text@,
    {
        let start: usize = self.original_buffer.len();
        append_bytes(&mut self.original_buffer, text);
        let end: usize = self.original_buffer.len();
        self.table.push(TableEntry::new(false, start, end));
        proof {
            assert(self.table.len() <= usize::MAX);
            lemma_append_original(old(self)@, text@);
            lemma_doc_len(self@);
            lemma_current_version(self@);
            assert(self@.history =~= old(self)@.history);
            assert(self@ == old(self)@.append_original(text@));
        }
        self.text_len = self.text_len + (end - start);
        self.text_up_to_date = false;
    }

    /// The index of the visible entry that holds the document's byte
    /// `at`, and the document offset at which that entry begins.
    fn find_holder(&self, at: usize) -> (found: (usize, usize))
        requires
            self.wf(),
            at < self@.len(),
        ensures
            self@.holds(found.0 as int, at as int),
            found.0 == self@.holder(at as int),
            found.1 == offset_of(self@.pieces, found.0 as int),
    {
        let mut i: usize = 0;
        let mut pos: usize = 0;
        proof {
            assert(self@.pieces.take(0) =~= Seq::<TableEntry>::empty());
            assert(self@.pieces.take(self@.pieces.len() as int) =~= self@.pieces);
        }
        loop
            invariant_except_break
                self.wf(),
                i < self.table.len(),
                pos == offset_of(self@.pieces, i as int),
                pos <= at < self@.len(),
            ensures
                i < self.table.len(),
                pos == offset_of(self@.pieces, i as int),
                self@.holds(i as int, at as int),
            decreases self.table.len() - i,
        {
            let entry = self.table[i];
            proof {
                crate::pieces::lemma_offset_step(self@.pieces, i as int);
                assert(entry.fits_in(self@.original.len() as int, self@.add.len() as int));
                assert(self@.pieces.take(self@.pieces.len() as int) =~= self@.pieces);
            }
            if entry.active {
                let len: usize = entry.end_index - entry.start_index;
                if at - pos < len {
                    break ;
                }
                pos = pos + len;
            }
            i = i + 1;
        }
        proof {
            lemma_holder_unique(self@, i as int, at as int);
        }
        (i, pos)
    }

    /// Forgets the actions that could be redone.
    fn prune(&mut self)
        requires
            old(self).wf(),
        ensures
            final(self).wf(),
            final(self)@ == old(self)@.pruned(),
    {
        let ghost before = self@;
        self.actions.truncate(self.actions_index);
        proof {
            assert(self@.history =~= before.pruned().history);
            assert(self@ == before.pruned());
            crate::history_laws::lemma_pruned(before);
            lemma_current_version(before);
            lemma_current_version(self@);
            assert forall|k: int| 0 <= k <= self@.history.len() implies (
            #[trigger] self@.version(k)).len() <= self@.original.len() + self@.add.len() by {
                assert(self@.version(k) == before.version(k));
                assert(before.version(k).len() <= before.original.len() + before.add.len());
            }
        }
    }

    /// Applies `action` to the table and records it as the latest action.
    fn commit(&mut self, action: Vec<usize>)
        requires
            old(self).wf(),
            action_ok(action@, old(self)@.pieces.len() as int),
            old(self)@.commit(action@).wf(),
        ensures
            final(self).wf(),
            final(self)@ == old(self)@.commit(action@),
            !final(self).text_is_fresh(),
    {
        let ghost before = self@;
        proof {
            let after = before.commit(action@);
            lemma_doc_len(after);
            lemma_current_version(after);
            assert(after.version(after.cursor).len() <= after.original.len() + after.add.len());
            assert forall|i: int| 0 <= i < self.table@.len() implies (
            #[trigger] self.table@[i]).start_index <= self.table@[i].end_index by {
                assert(
                    self.table@[i].fits_in(before.original.len() as int, before.add.len() as int)
                );
            }
        }
        self.text_len = switch_entries(&mut self.table, &action, self.text_len);
        self.text_up_to_date = false;
        proof {
            assert(self@.history =~= before.history);
            assert(self@ == before.switched(action@));
            crate::history_laws::lemma_toggled_fit(
                before.pieces,
                action@,
                before.original.len() as int,
                before.add.len() as int,
            );
        }
        self.add_action(action);
    }

    /// Shows the entry `fresh` at `index` of the table, as an action.
    fn put_whole(&mut self, index: usize, fresh: TableEntry)
        requires
            old(self).wf(),
            index <= old(self)@.pieces.len(),
            fresh.active,
            fresh.fits_in(old(self)@.original.len() as int, old(self)@.add.len() as int),
            old(self)@.pieces.len() < usize::MAX ==> old(self)@.put_whole(index as int, fresh).wf(),
        ensures
            final(self).wf(),
            final(self)@ == old(self)@.put_whole(index as int, fresh),
            !final(self).text_is_fresh(),
    {
        let mut hidden = fresh;
        hidden.switch();
        self.insert(index, hidden);
        assert(self.table.len() <= usize::MAX);
        let mut action: Vec<usize> = Vec::new();
        action.push(index);
        proof {
            assert(action@ =~= seq![index]);
        }
        self.commit(action);
    }

    /// Cuts entry `i` after its first `cut` bytes and shows the entry
    /// `fresh` between the two parts, as an action.
    fn put_cut(&mut self, i: usize, cut: usize, fresh: TableEntry)
        requires
            old(self).wf(),
            i < old(self)@.pieces.len(),
            old(self)@.pieces[i as int].active,
            0 < cut < old(self)@.pieces[i as int].len(),
            fresh.active,
            fresh.fits_in(old(self)@.original.len() as int, old(self)@.add.len() as int),
            old(self)@.pieces.len() + 3 <= usize::MAX ==> old(self)@.put_cut(
                i as int,
                cut as int,
                fresh,
            ).wf(),
        ensures
            final(self).wf(),
            final(self)@ == old(self)@.put_cut(i as int, cut as int, fresh),
            !final(self).text_is_fresh(),
    {
        let p = self.table[i];
        assert(p.fits_in(self@.original.len() as int, self@.add.len() as int));
        let mut right = TableEntry::new(p.is_add_buffer, p.start_index + cut, p.end_index);
        right.switch();
        let mut left = TableEntry::new(p.is_add_buffer, p.start_index, p.start_index + cut);
        left.switch();
        let mut hidden = fresh;
        hidden.switch();
        self.insert(i, right);
        self.insert(i, hidden);
        self.insert(i, left);
        assert(self.table.len() <= usize::MAX);
        let mut action: Vec<usize> = Vec::new();
        action.push(i);
        action.push(i + 1);
        action.push(i + 2);
        action.push(i + 3);
        proof {
            assert(action@ =~= seq![i, (i + 1) as usize, (i + 2) as usize, (i + 3) as usize]);
            assert(action@[0] == i && action@[1] == i + 1 && action@[2] == i + 2 && action@[3] == i
                + 3);
        }
        self.commit(action);
    }

    /// Shows the entry `fresh` before the document's byte `at`, as an action.
    fn place(&mut self, fresh: TableEntry, at: usize)
        requires
            old(self).wf(),
            at <= old(self)@.len(),
            fresh.active,
            fresh.fits_in(old(self)@.original.len() as int, old(self)@.add.len() as int),
            old(self)@.place(fresh, at as int).pieces.len() <= usize::MAX ==> old(self)@.place(
                fresh,
                at as int,
            ).wf(),
        ensures
            final(self).wf(),
            final(self)@ == old(self)@.place(fresh, at as int),
            !final(self).text_is_fresh(),
    {
        if at == 0 {
            self.put_whole(0, fresh);
        } else if at == self.text_len {
            self.put_whole(self.table.len(), fresh);
        } else {
            let (i, pos) = self.find_holder(at);
            let cut: usize = at - pos;
            if cut == 0 {
                self.put_whole(i, fresh);
            } else {
                self.put_cut(i, cut, fresh);
            }
        }
    }

    /// Inserts `text` before the document's byte `index`.
    ///
    /// Fails with [`Error::OutOfRange`], and changes nothing, where
    /// `index` lies behind the document's end. Otherwise the document
    /// gets the bytes of `text` at `index`; the insertion becomes the
    /// latest action, nothing is left to redo, and every earlier version
    /// of the document stays what it was.
    pub fn add_text(&mut self, text: String, index: usize) -> (result: Result<(), Error>)
        requires
            old(self).wf(),
            old(self)@.original.len() + old(self)@.add.len() + encode_utf8(text@).len()
                <= usize::MAX,
        ensures
            final(self).wf(),
            index > old(self)@.doc().len() ==> {
                &&& result == Err::<(), Error>(Error::OutOfRange)
                &&& final(self)@ == old(self)@
                &&& final(self).text_is_fresh() == old(self).text_is_fresh()
            },
            index <= old(self)@.doc().len() ==> {
                &&& result == Ok::<(), Error>(())
                &&& !final(self).text_is_fresh()
                &&& final(self)@ == old(self)@.insert(encode_utf8(text@), index as int)
                &&& final(self)@.doc() == old(self)@.doc().subrange(0, index as int)
                    + encode_utf8(text@) + old(self)@.doc().subrange(
                    index as int,
                    old(self)@.doc().len() as int,
                )
                &&& final(self)@.original == old(self)@.original
                &&& final(self)@.add == old(self)@.add + encode_utf8(text@)
                &&& final(self)@.cursor == old(self)@.cursor + 1
                &&& final(self)@.history.len() == final(self)@.cursor
                &&& forall|k: int|
                    0 <= k <= old(self)@.cursor ==> #[trigger] final(self)@.version(k)
                        == old(self)@.version(k)
            },
    {
        let bytes = text.as_str().as_bytes();
        let ghost before = self@;
        proof {
            lemma_doc_len(before);
        }
        if index > self.text_len {
            return Err(Error::OutOfRange);
        }
        self.prune();
        let start: usize = self.add_buffer.len();
        append_bytes(&mut self.add_buffer, bytes);
        let end: usize = self.add_buffer.len();
        proof {
            let ready = self@;
            crate::edit_laws::lemma_ready_for(before, bytes@);
            assert(ready == before.ready_for(bytes@));
            lemma_current_version(ready);
            assert forall|k: int| 0 <= k <= ready.history.len() implies (
            #[trigger] ready.version(k)).len() <= ready.original.len() + ready.add.len() by {
                assert(ready.version(k) == before.version(k));
                assert(before.version(k).len() <= before.original.len() + before.add.len());
            }
            if before.insert(bytes@, index as int).pieces.len() <= usize::MAX {
                lemma_insert(before, bytes@, index as int);
                crate::edit_laws::lemma_insert_wf(before, bytes@, index as int);
            }
        }
        self.place(TableEntry::new(true, start, end), index);
        proof {
            assert(self.table.len() <= usize::MAX);
            lemma_insert(before, bytes@, index as int);
        }
        Ok(())
    }

    /// The indices from `from` to `to - 1` of the visible entries.
    fn visible_from(&self, from: usize, to: usize) -> (found: Vec<usize>)
        requires
            from <= to <= self@.pieces.len(),
        ensures
            found@ == visible_between(self@.pieces, from as int, to as int),
    {
        let mut found: Vec<usize> = Vec::new();
        let mut j: usize = from;
        while j < to
            invariant
                from <= j <= to <= self@.pieces.len(),
                found@ == visible_between(self@.pieces, from as int, j as int),
            decreases to - j,
        {
            if self.table[j].active {
                found.push(j);
            }
            j = j + 1;
        }
        found
    }

    /// Hides the visible entries from `first` to `last`, but for the
    /// first `head` bytes of entry `first` and the last `tail` bytes of
    /// entry `last`, as an action.
    fn take_out(&mut self, first: usize, last: usize, head: usize, tail: usize)
        requires
            old(self).wf(),
            first <= last < old(self)@.pieces.len(),
            old(self)@.pieces[first as int].active,
            old(self)@.pieces[last as int].active,
            head < old(self)@.pieces[first as int].len(),
            tail < old(self)@.pieces[last as int].len(),
            old(self)@.take_out(first as int, last as int, head as int, tail as int).pieces.len()
                <= usize::MAX ==> old(self)@.take_out(
                first as int,
                last as int,
                head as int,
                tail as int,
            ).wf(),
        ensures
            final(self).wf(),
            final(self)@
                == old(self)@.take_out(first as int, last as int, head as int, tail as int),
            !final(self).text_is_fresh(),
    {
        let ghost before = self@;
        let first_entry = self.table[first];
        let last_entry = self.table[last];
        assert(self.table.len() <= usize::MAX);
        assert(first_entry.fits_in(before.original.len() as int, before.add.len() as int));
        assert(last_entry.fits_in(before.original.len() as int, before.add.len() as int));
        if tail > 0 {
            let mut right = TableEntry::new(
                last_entry.is_add_buffer,
                last_entry.end_index - tail,
                last_entry.end_index,
            );
            right.switch();
            self.insert(last + 1, right);
        }
        if head > 0 {
            let mut left = TableEntry::new(
                first_entry.is_add_buffer,
                first_entry.start_index,
                first_entry.start_index + head,
            );
            left.switch();
            self.insert(first + 1, left);
        }
        assert(self.table.len() <= usize::MAX);
        assert(self@ == before.staged_out(first as int, last as int, head as int, tail as int));
        proof {
            crate::delete_laws::lemma_staged_out(
                before,
                first as int,
                last as int,
                head as int,
                tail as int,
            );
        }
        let dl: usize = if head > 0 {
            1
        } else {
            0
        };
        let mut action = self.visible_from(first, last + dl + 1);
        if head > 0 {
            action.push(first + 1);
        }
        if tail > 0 {
            action.push(last + dl + 1);
        }
        proof {
            assert(
                action@ == before.out_action(first as int, last as int, head as int, tail as int)
            );
            if head > 0 {
                assert(self@.pieces[first + 1] == crate::delete_laws::staged_entry(
                    before.pieces,
                    first as int,
                    last as int,
                    head as int,
                    tail as int,
                    first + 1,
                ));
            }
            crate::delete_laws::lemma_out_action(
                before,
                first as int,
                last as int,
                head as int,
                tail as int,
            );
        }
        self.commit(action);
    }

    /// Deletes the document's bytes from `start` to `end - 1`.
    ///
    /// Fails with [`Error::OutOfRange`], and changes nothing, where the
    /// range is empty or inverted or ends behind the document's end.
    /// Otherwise the document loses those bytes; the deletion becomes the
    /// latest action, nothing is left to redo, and every earlier version
    /// of the document stays what it was.
    pub fn delete_text(&mut self, start: usize, end: usize) -> (result: Result<(), Error>)
        requires
            old(self).wf(),
        ensures
            final(self).wf(),
            (start >= end || end > old(self)@.doc().len()) ==> {
                &&& result == Err::<(), Error>(Error::OutOfRange)
                &&& final(self)@ == old(self)@
                &&& final(self).text_is_fresh() == old(self).text_is_fresh()
            },
            start < end <= old(self)@.doc().len() ==> {
                &&& result == Ok::<(), Error>(())
                &&& !final(self).text_is_fresh()
                &&& final(self)@ == old(self)@.delete(start as int, end as int)
                &&& final(self)@.doc() == old(self)@.doc().subrange(0, start as int)
                    + old(self)@.doc().subrange(end as int, old(self)@.doc().len() as int)
                &&& final(self)@.original == old(self)@.original
                &&& final(self)@.add == old(self)@.add
                &&& final(self)@.cursor == old(self)@.cursor + 1
                &&& final(self)@.history.len() == final(self)@.cursor
                &&& forall|k: int|
                    0 <= k <= old(self)@.cursor ==> #[trigger] final(self)@.version(k)
                        == old(self)@.version(k)
            },
    {
        let ghost before = self@;
        proof {
            lemma_doc_len(before);
        }
        if start >= end || end > self.text_len {
            return Err(Error::OutOfRange);
        }
        let (first, first_pos) = self.find_holder(start);
        let (last, last_pos) = self.find_holder(end - 1);
        let last_entry = self.table[last];
        proof {
            assert(last_entry.fits_in(before.original.len() as int, before.add.len() as int));
            assert forall|t: int| 0 <= t < before.pieces.len() implies (
            #[trigger] before.pieces[t]).shown_len() >= 0 by {
                assert(before.pieces[t].fits_in(
                    before.original.len() as int,
                    before.add.len() as int,
                ));
            }
            if last < first {
                crate::pieces::lemma_offset_monotone(before.pieces, last as int, first as int);
            }
        }
        let head: usize = start - first_pos;
        let tail: usize = (last_entry.end_index - last_entry.start_index) - (end - last_pos);
        self.prune();
        proof {
            if before.delete(start as int, end as int).pieces.len() <= usize::MAX {
                crate::delete_laws::lemma_delete_wf(before, start as int, end as int);
            }
        }
        self.take_out(first, last, head, tail);
        proof {
            assert(self.table.len() <= usize::MAX);
            crate::delete_laws::lemma_delete(before, start as int, end as int);
        }
        Ok(())
    }

    /// Puts `table_entry` into the table at `index` and rewrites the
    /// actions so that each names the entries that it named before.
    ///
    /// A hidden entry changes no version of the document. A visible one
    /// shows its bytes in every version, so the caller has to know that
    /// every version still is no longer than the buffers.
    pub fn insert(&mut self, index: usize, table_entry: TableEntry)
        requires
            old(self).wf(),
            index <= old(self)@.pieces.len(),
            table_entry.fits_in(old(self)@.original.len() as int, old(self)@.add.len() as int),
            table_entry.active ==> old(self)@.with_piece(index as int, table_entry).bounded(),
        ensures
            final(self).wf(),
            final(self)@ == old(self)@.with_piece(index as int, table_entry),
            !final(self).text_is_fresh(),
            final(self)@.doc() == old(self)@.doc().subrange(
                0,
                offset_of(old(self)@.pieces, index as int),
            ) + table_entry.shown(old(self)@.original, old(self)@.add) + old(self)@.doc().subrange(
                offset_of(old(self)@.pieces, index as int),
                old(self)@.doc().len() as int,
            ),
            !table_entry.active ==> forall|k: int|
                0 <= k <= old(self)@.history.len() ==> #[trigger] final(self)@.version(k)
                    == old(self)@.version(k),
    {
        let ghost before = self@;
        let old_len: usize = self.table.len();
        self.table.insert(index, table_entry);
        assert(self.table.len() <= usize::MAX);
        assert(old_len < usize::MAX);
        assert forall|j: int| 0 <= j < self.actions@.len() implies action_ok(
            (#[trigger] self.actions@[j])@,
            old_len as int,
        ) by {
            assert(action_ok(before.history[j], before.pieces.len() as int));
        }
        shift_actions(&mut self.actions, index, old_len);
        proof {
            let after = before.with_piece(index as int, table_entry);
            assert(self@.history =~= after.history);
            assert(self@ == after);
            lemma_shown_with_piece(
                before.original,
                before.add,
                before.pieces,
                index as int,
                table_entry,
            );
            crate::history_laws::lemma_shown_split(
                before.original,
                before.add,
                before.pieces,
                index as int,
            );
            lemma_doc_len(before);
            let off = offset_of(before.pieces, index as int);
            assert(before.doc().subrange(0, off) =~= shown_text(
                before.original,
                before.add,
                before.pieces.take(index as int),
            ));
            assert(before.doc().subrange(off, before.doc().len() as int) =~= shown_text(
                before.original,
                before.add,
                before.pieces.skip(index as int),
            ));
            lemma_structure_with_piece(before, index as int, table_entry);
            if !table_entry.active {
                lemma_with_hidden_piece(before, index as int, table_entry);
                assert forall|k: int| 0 <= k <= after.history.len() implies (
                #[trigger] after.version(k)).len() <= after.original.len() + after.add.len() by {
                    assert(after.version(k) == before.version(k));
                    assert(before.version(k).len() <= before.original.len() + before.add.len());
                }
            }
            lemma_current_version(after);
            lemma_doc_len(after);
            assert(after.version(after.cursor).len() <= after.original.len() + after.add.len());
        }
        if table_entry.active {
            self.text_len = self.text_len + (table_entry.end_index - table_entry.start_index);
        }
        self.text_up_to_date = false;
    }

    /// Puts `table_entry` at the end of the table.
    ///
    /// A hidden entry changes no version of the document; a visible one
    /// shows its bytes at the end of every version, so these have to
    /// stay no longer than the buffers.
    pub fn push(&mut self, table_entry: TableEntry)
        requires
            old(self).wf(),
            table_entry.fits_in(old(self)@.original.len() as int, old(self)@.add.len() as int),
            table_entry.active ==> old(self)@.with_last(table_entry).bounded(),
        ensures
            final(self).wf(),
            final(self)@ == old(self)@.with_last(table_entry),
            !final(self).text_is_fresh(),
            forall|k: int|
                0 <= k <= old(self)@.history.len() ==> #[trigger] final(self)@.version(k)
                    == old(self)@.version(k) + table_entry.shown(
                    old(self)@.original,
                    old(self)@.add,
                ),
    {
        let ghost before = self@;
        self.table.push(table_entry);
        proof {
            assert(self.table.len() <= usize::MAX);
            let after = before.with_last(table_entry);
            assert(self@.history =~= after.history);
            assert(self@ == after);
            lemma_with_last(before, table_entry);
            if !table_entry.active {
                assert forall|k: int| 0 <= k <= after.history.len() implies (
                #[trigger] after.version(k)).len() <= after.original.len() + after.add.len() by {
                    assert(after.version(k) =~= before.version(k));
                    assert(before.version(k).len() <= before.original.len() + before.add.len());
                }
            }
            lemma_current_version(after);
            lemma_doc_len(after);
            assert(after.version(after.cursor).len() <= after.original.len() + after.add.len());
        }
        if table_entry.active {
            self.text_len = self.text_len + (table_entry.end_index - table_entry.start_index);
        }
        self.text_up_to_date = false;
    }

    /// Records `action` as the latest applied action: the actions that
    /// could be redone are forgotten, `action` is appended to the
    /// history, and the history cursor moves behind it. The table is
    /// not touched: the caller has made the change that `action` names.
    pub fn add_action(&mut self, action: Vec<usize>)
        requires
            old(self).consistent(),
            action_ok(action@, old(self)@.pieces.len() as int),
            old(self)@.record(action@).bounded(),
        ensures
            final(self).wf(),
            final(self)@ == old(self)@.record(action@),
            final(self).text_is_fresh() == old(self).text_is_fresh(),
    {
        let ghost before = self@;
        self.actions.truncate(self.actions_index);
        self.actions.push(action);
        self.actions_index = self.actions.len();
        proof {
            let after = before.record(action@);
            assert(self@.history =~= after.history);
            assert(self@ == after);
            assert forall|j: int| 0 <= j < after.history.len() implies action_ok(
                #[trigger] after.history[j],
                after.pieces.len() as int,
            ) by {
                if j < before.cursor {
                    assert(after.history[j] == before.history[j]);
                }
            }
        }
    }

    /// Takes the latest applied action back.
    ///
    /// Fails with [`Error::NothingToUndo`] where no action is applied.
    /// Otherwise the document is the version before that action; every
    /// version stays what it was, and the action can be redone.
    pub fn undo(&mut self) -> (result: Result<(), Error>)
        requires
            old(self).wf(),
        ensures
            final(self).wf(),
            old(self)@.cursor == 0 ==> {
                &&& result == Err::<(), Error>(Error::NothingToUndo)
                &&& final(self)@ == old(self)@
                &&& final(self).text_is_fresh() == old(self).text_is_fresh()
            },
            old(self)@.cursor > 0 ==> {
                &&& result == Ok::<(), Error>(())
                &&& final(self)@ == old(self)@.undo()
                &&& final(self)@.doc() == old(self)@.version(old(self)@.cursor - 1)
                &&& !final(self).text_is_fresh()
            },
            forall|k: int| #[trigger] final(self)@.version(k) == old(self)@.version(k),
    {
        if self.actions_index == 0 {
            return Err(Error::NothingToUndo);
        }
        let ghost before = self@;
        proof {
            let after = before.undo();
            lemma_undo_redo_wf(before);
            lemma_current_version(after);
            lemma_doc_len(after);
            lemma_undo_keeps_versions(before, after.cursor);
            assert(after.version(after.cursor).len() <= after.original.len() + after.add.len());
            assert(before.history[before.cursor - 1] == self.actions@[self.actions_index - 1]@);
            assert(action_ok(before.history[before.cursor - 1], before.pieces.len() as int));
            assert forall|i: int| 0 <= i < self.table@.len() implies (
            #[trigger] self.table@[i]).start_index <= self.table@[i].end_index by {
                assert(
                    self.table@[i].fits_in(before.original.len() as int, before.add.len() as int)
                );
            }
        }
        self.text_len = switch_entries(
            &mut self.table,
            &self.actions[self.actions_index - 1],
            self.text_len,
        );
        self.text_up_to_date = false;
        self.actions_index = self.actions_index - 1;
        proof {
            assert(self@.history =~= before.history);
            assert(self@ == before.undo());
            assert forall|k: int| #[trigger] self@.version(k) == before.version(k) by {
                lemma_undo_keeps_versions(before, k);
            }
        }
        Ok(())
    }

    /// Applies again the earliest action that was taken back.
    ///
    /// Fails with [`Error::NothingToRedo`] where no action was taken
    /// back since the last edit. Otherwise the document is the version
    /// after that action; every version stays what it was.
    pub fn redo(&mut self) -> (result: Result<(), Error>)
        requires
            old(self).wf(),
        ensures
            final(self).wf(),
            old(self)@.cursor == old(self)@.history.len() ==> {
                &&& result == Err::<(), Error>(Error::NothingToRedo)
                &&& final(self)@ == old(self)@
                &&& final(self).text_is_fresh() == old(self).text_is_fresh()
            },
            old(self)@.cursor < old(self)@.history.len() ==> {
                &&& result == Ok::<(), Error>(())
                &&& final(self)@ == old(self)@.redo()
                &&& final(self)@.doc() == old(self)@.version(old(self)@.cursor + 1)
                &&& !final(self).text_is_fresh()
            },
            forall|k: int| #[trigger] final(self)@.version(k) == old(self)@.version(k),
    {
        if self.actions_index >= self.actions.len() {
            return Err(Error::NothingToRedo);
        }
        let ghost before = self@;
        proof {
            let after = before.redo();
            lemma_undo_redo_wf(before);
            lemma_current_version(after);
            lemma_doc_len(after);
            lemma_redo_keeps_versions(before, after.cursor);
            assert(after.version(after.cursor).len() <= after.original.len() + after.add.len());
            assert(before.history[before.cursor] == self.actions@[self.actions_index as int]@);
            assert(action_ok(before.history[before.cursor], before.pieces.len() as int));
            assert forall|i: int| 0 <= i < self.table@.len() implies (
            #[trigger] self.table@[i]).start_index <= self.table@[i].end_index by {
                assert(
                    self.table@[i].fits_in(before.original.len() as int, before.add.len() as int)
                );
            }
        }
        self.text_len = switch_entries(
            &mut self.table,
            &self.actions[self.actions_index],
            self.text_len,
        );
        self.text_up_to_date = false;
        self.actions_index = self.actions_index + 1;
        proof {
            assert(self@.history =~= before.history);
            assert(self@ == before.redo());
            assert forall|k: int| #[trigger] self@.version(k) == before.version(k) by {
                lemma_redo_keeps_versions(before, k);
            }
        }
        Ok(())
    }

    /// Brings the cached text up to date.
    pub fn update_text(&mut self)
        requires
            old(self).wf(),
        ensures
            final(self).wf(),
            final(self)@ == old(self)@,
            final(self).text_is_fresh(),
    {
        if self.text_up_to_date {
            return ;
        }
        let mut text: Vec<u8> = Vec::new();
        let mut i: usize = 0;
        while i < self.table.len()
            invariant
                i <= self.table.len(),
                *self == *old(self),
                self.wf(),
                text@ == shown_text(self@.original, self@.add, self@.pieces.take(i as int)),
            decreases self.table.len() - i,
        {
            let entry = self.table[i];
            proof {
                assert(self@.pieces.take(i + 1).drop_last() =~= self@.pieces.take(i as int));
                assert(self@.pieces.take(i + 1).last() == entry);
                assert(entry.fits_in(self@.original.len() as int, self@.add.len() as int));
            }
            if entry.active {
                let bytes = self.table_entry_text(&entry);
                append_bytes(&mut text, bytes);
            } else {
                assert(text@ + Seq::<u8>::empty() =~= text@);
            }
            i = i + 1;
        }
        proof {
            assert(self@.pieces.take(self.table.len() as int) =~= self@.pieces);
        }
        self.text = text;
        self.text_up_to_date = true;
    }

    /// The cached text is marked as being the document. Every edit
    /// takes the mark away; [`Self::update_text`] sets it.
    pub closed spec fn text_is_fresh(&self) -> bool {
        self.text_up_to_date
    }

    /// The document. The cached text is rebuilt first where an edit has
    /// been made since it was last built.
    pub fn text(&mut self) -> (text: &Vec<u8>)
        requires
            old(self).wf(),
        ensures
            final(self).wf(),
            final(self)@ == old(self)@,
            final(self).text_is_fresh(),
            text@ == old(self)@.doc(),
            text@.len() == old(self)@.len(),
    {
        proof {
            lemma_doc_len(self@);
        }
        self.update_text();
        &self.text
    }

    /// Where line `index` of the cached text begins and ends, without
    /// its line ending.
    fn find_line(&self, index: usize) -> (found: Option<(usize, usize)>)
        requires
            self.wf(),
            self.text_is_fresh(),
        ensures
            match (nth_line(self@.doc(), index as nat), found) {
                (Some(line), Some(range)) => range.0 <= range.1 <= self@.doc().len()
                    && self@.doc().subrange(range.0 as int, range.1 as int) == line,
                (None, None) => true,
                _ => false,
            },
    {
        let text = self.text.as_slice();
        let mut pos: usize = 0;
        let mut i: usize = 0;
        proof {
            assert(text@.skip(0) =~= text@);
        }
        while pos < text.len()
            invariant
                pos <= text@.len(),
                i <= index,
                text@ == self@.doc(),
                nth_line(text@, index as nat)
                    == nth_line(text@.skip(pos as int), (index - i) as nat),
            decreases text@.len() - pos,
        {
            proof {
                lemma_line_end_of_rest(text@, pos as int, pos as int);
                lemma_line_end(text@, pos as int);
            }
            let end: usize = find_line_end(text, pos);
            if i == index {
                let ghost whole = text@.skip(pos as int).take(end - pos);
                assert(text@.subrange(pos as int, end as int) =~= whole);
                let stop: usize = if text[end - 1] == NEWLINE {
                    if end - pos > 1 && text[end - 2] == CARRIAGE_RETURN {
                        end - 2
                    } else {
                        end - 1
                    }
                } else {
                    end
                };
                proof {
                    assert(text@.subrange(pos as int, stop as int) =~= without_line_ending(whole));
                    assert(nth_line(text@.skip(pos as int), 0) == Some(without_line_ending(whole)));
                }
                return Some((pos, stop));
            }
            proof {
                assert(text@.skip(pos as int).skip(end - pos) =~= text@.skip(end as int));
            }
            pos = end;
            i = i + 1;
        }
        None
    }

    /// Line `index` of the document, counted from 0, without its line
    /// ending; lines end with a newline, the last one may go without.
    ///
    /// Fails with [`Error::OutOfRange`] where the document has fewer
    /// lines.
    pub fn line(&mut self, index: usize) -> (result: Result<&[u8], Error>)
        requires
            old(self).wf(),
        ensures
            final(self).wf(),
            final(self)@ == old(self)@,
            match nth_line(old(self)@.doc(), index as nat) {
                Some(line) => result is Ok && result->Ok_0@ == line,
                None => result == Err::<&[u8], Error>(Error::OutOfRange),
            },
    {
        self.update_text();
        match self.find_line(index) {
            Some((start, stop)) => Ok(slice_subrange(self.text.as_slice(), start, stop)),
            None => Err(Error::OutOfRange),
        }
    }
}

} // verus!

//! Table entries, and what a sequence of them shows.
//!
//! A table entry (a piece) names a slice of one of two byte buffers and says
//! whether that slice is visible. The document is what the visible entries
//! show, read in table order. Everything here is stated over `Seq`, so that
//! the piece table and its history can be described without a `Vec` in sight.

use vstd::prelude::*;

verus! {

/// An entry in the piece table: the half-open range
/// `start_index..end_index` of one of the two buffers.
#[derive(Clone, Copy, Debug)]
pub struct TableEntry {
    /// Whether the range is one of the add buffer (else of the original buffer).
    pub is_add_buffer: bool,
    /// First byte of the range.
    pub start_index: usize,
    /// One past the last byte of the range.
    pub end_index: usize,
    /// Whether the entry is visible.
    pub active: bool,
}

impl TableEntry {
    /// Number of bytes in the range.
    pub open spec fn len(self) -> int {
        self.end_index - self.start_index
    }

    /// Number of bytes the entry contributes to the document.
    pub open spec fn shown_len(self) -> int {
        if self.active {
            self.len()
        } else {
            0
        }
    }

    /// The range lies inside its buffer.
    pub open spec fn fits_in(self, original_len: int, add_len: int) -> bool {
        self.start_index <= self.end_index <= (if self.is_add_buffer {
            add_len
        } else {
            original_len
        })
    }

    /// The bytes of the range.
    pub open spec fn bytes(self, original: Seq<u8>, add: Seq<u8>) -> Seq<u8> {
        if self.is_add_buffer {
            add.subrange(self.start_index as int, self.end_index as int)
        } else {
            original.subrange(self.start_index as int, self.end_index as int)
        }
    }

    /// The bytes the entry contributes to the document.
    pub open spec fn shown(self, original: Seq<u8>, add: Seq<u8>) -> Seq<u8> {
        if self.active {
            self.bytes(original, add)
        } else {
            Seq::empty()
        }
    }

    /// The same range with the visibility flag inverted.
    pub open spec fn flipped(self) -> TableEntry {
        TableEntry { active: !self.active, ..self }
    }

    /// The same range, hidden.
    pub open spec fn hidden(self) -> TableEntry {
        TableEntry { active: false, ..self }
    }

    /// A visible entry for `start_index..end_index`.
    pub fn new(is_add_buffer: bool, start_index: usize, end_index: usize) -> (entry: TableEntry)
        ensures
            entry == (TableEntry { is_add_buffer, start_index, end_index, active: true }),
    {
        TableEntry { is_add_buffer, start_index, end_index, active: true }
    }

    /// Inverts the visibility flag.
    pub fn switch(&mut self)
        ensures
            *final(self) == old(self).flipped(),
    {
        self.active = !self.active;
    }
}

/// Every entry's range lies inside its buffer.
pub open spec fn all_fit(pieces: Seq<TableEntry>, original_len: int, add_len: int) -> bool {
    forall|i: int| 0 <= i < pieces.len() ==> (#[trigger] pieces[i]).fits_in(original_len, add_len)
}

/// The document: the bytes of the visible entries, in table order.
pub open spec fn shown_text(original: Seq<u8>, add: Seq<u8>, pieces: Seq<TableEntry>) -> Seq<u8>
    decreases pieces.len(),
{
    if pieces.len() == 0 {
        Seq::empty()
    } else {
        shown_text(original, add, pieces.drop_last()) + pieces.last().shown(original, add)
    }
}

/// The document's length, counted from the entries alone.
pub open spec fn shown_total(pieces: Seq<TableEntry>) -> int
    decreases pieces.len(),
{
    if pieces.len() == 0 {
        0
    } else {
        shown_total(pieces.drop_last()) + pieces.last().shown_len()
    }
}

/// Document offset at which entry `i` begins.
pub open spec fn offset_of(pieces: Seq<TableEntry>, i: int) -> int {
    shown_total(pieces.take(i))
}

/// `action` lists the index `i`.
pub open spec fn names(action: Seq<usize>, i: int) -> bool {
    exists|t: int| 0 <= t < action.len() && #[trigger] action[t] == i
}

/// The entries with the visibility of those listed in `action` inverted.
pub open spec fn toggled(pieces: Seq<TableEntry>, action: Seq<usize>) -> Seq<TableEntry> {
    Seq::new(
        pieces.len(),
        |i: int|
            if names(action, i) {
                pieces[i].flipped()
            } else {
                pieces[i]
            },
    )
}

/// An action that is meaningful for a table of `table_len` entries: its
/// indices are in range and none occurs twice.
pub open spec fn action_ok(action: Seq<usize>, table_len: int) -> bool {
    &&& action.no_duplicates()
    &&& forall|t: int| 0 <= t < action.len() ==> (#[trigger] action[t]) < table_len
}

/// The index that entry `index` has after `by` entries were put in at `at`.
pub open spec fn moved(index: usize, at: int, by: int) -> usize {
    if index >= at {
        (index + by) as usize
    } else {
        index
    }
}

/// An action rewritten so that it names the same entries after `by`
/// entries were put in at `at`.
pub open spec fn shifted(action: Seq<usize>, at: int, by: int) -> Seq<usize> {
    Seq::new(action.len(), |t: int| moved(action[t], at, by))
}

/// Every action of a history, rewritten by [`shifted`].
pub open spec fn shifted_all(history: Seq<Seq<usize>>, at: int, by: int) -> Seq<Seq<usize>> {
    Seq::new(history.len(), |j: int| shifted(history[j], at, by))
}

/// What the document shows is what its two halves show, one after the other.
pub proof fn lemma_shown_text_concat(
    original: Seq<u8>,
    add: Seq<u8>,
    left: Seq<TableEntry>,
    right: Seq<TableEntry>,
)
    ensures
        shown_text(original, add, left + right) == shown_text(original, add, left) + shown_text(
            original,
            add,
            right,
        ),
    decreases right.len(),
{
    if right.len() == 0 {
        assert(left + right =~= left);
        assert(shown_text(original, add, right) =~= Seq::<u8>::empty());
    } else {
        assert((left + right).drop_last() =~= left + right.drop_last());
        assert((left + right).last() == right.last());
        lemma_shown_text_concat(original, add, left, right.drop_last());
    }
}

/// The counted length of a table is the sum of those of its two halves.
pub proof fn lemma_shown_total_concat(left: Seq<TableEntry>, right: Seq<TableEntry>)
    ensures
        shown_total(left + right) == shown_total(left) + shown_total(right),
    decreases right.len(),
{
    if right.len() == 0 {
        assert(left + right =~= left);
    } else {
        assert((left + right).drop_last() =~= left + right.drop_last());
        assert((left + right).last() == right.last());
        lemma_shown_total_concat(left, right.drop_last());
    }
}

/// A table of one entry shows that entry.
pub proof fn lemma_shown_single(original: Seq<u8>, add: Seq<u8>, entry: TableEntry)
    ensures
        shown_text(original, add, seq![entry]) == entry.shown(original, add),
        shown_total(seq![entry]) == entry.shown_len(),
{
    let one = seq![entry];
    assert(one.drop_last() =~= Seq::<TableEntry>::empty());
    assert(one.last() == entry);
    assert(shown_text(original, add, one.drop_last()) =~= Seq::<u8>::empty());
    assert(shown_total(one.drop_last()) == 0);
    assert(shown_text(original, add, one) =~= entry.shown(original, add));
}

/// Where every range lies inside its buffer, the counted length is the
/// document's length, and it is not negative.
pub proof fn lemma_shown_total_is_len(original: Seq<u8>, add: Seq<u8>, pieces: Seq<TableEntry>)
    requires
        all_fit(pieces, original.len() as int, add.len() as int),
    ensures
        shown_text(original, add, pieces).len() == shown_total(pieces),
        shown_total(pieces) >= 0,
    decreases pieces.len(),
{
    if pieces.len() > 0 {
        lemma_shown_total_is_len(original, add, pieces.drop_last());
        assert(pieces.last().fits_in(original.len() as int, add.len() as int));
    }
}

/// The counted length is not negative where no range is inverted.
pub proof fn lemma_shown_total_not_negative(pieces: Seq<TableEntry>)
    requires
        forall|i: int|
            0 <= i < pieces.len() ==> (#[trigger] pieces[i]).start_index <= pieces[i].end_index,
    ensures
        shown_total(pieces) >= 0,
    decreases pieces.len(),
{
    if pieces.len() > 0 {
        lemma_shown_total_not_negative(pieces.drop_last());
        assert(pieces.last().start_index <= pieces.last().end_index);
    }
}

/// Offsets grow along the table: an entry begins no earlier than where an
/// earlier entry ends.
pub proof fn lemma_offset_monotone(pieces: Seq<TableEntry>, i: int, j: int)
    requires
        0 <= i <= j <= pieces.len(),
        forall|t: int| 0 <= t < pieces.len() ==> (#[trigger] pieces[t]).shown_len() >= 0,
    ensures
        offset_of(pieces, i) <= offset_of(pieces, j),
        i < j ==> offset_of(pieces, i) + pieces[i].shown_len() <= offset_of(pieces, j),
    decreases j - i,
{
    if i < j {
        lemma_offset_monotone(pieces, i, j - 1);
        lemma_offset_step(pieces, j - 1);
    }
}

/// The entry after `i` begins where `i` ends.
pub proof fn lemma_offset_step(pieces: Seq<TableEntry>, i: int)
    requires
        0 <= i < pieces.len(),
    ensures
        offset_of(pieces, i + 1) == offset_of(pieces, i) + pieces[i].shown_len(),
{
    assert(pieces.take(i + 1).drop_last() =~= pieces.take(i));
    assert(pieces.take(i + 1).last() == pieces[i]);
}

/// Bytes appended to the buffers do not change what fitting entries show.
pub proof fn lemma_shown_text_grown(
    original: Seq<u8>,
    add: Seq<u8>,
    more_original: Seq<u8>,
    more_add: Seq<u8>,
    pieces: Seq<TableEntry>,
)
    requires
        all_fit(pieces, original.len() as int, add.len() as int),
    ensures
        shown_text(original + more_original, add + more_add, pieces) == shown_text(
            original,
            add,
            pieces,
        ),
    decreases pieces.len(),
{
    if pieces.len() > 0 {
        lemma_shown_text_grown(original, add, more_original, more_add, pieces.drop_last());
        let e = pieces.last();
        assert(e.fits_in(original.len() as int, add.len() as int));
        assert(e.bytes(original + more_original, add + more_add) =~= e.bytes(original, add));
    }
}

/// Inverting the same entries twice gives the table back.
pub proof fn lemma_toggled_twice(pieces: Seq<TableEntry>, action: Seq<usize>)
    ensures
        toggled(toggled(pieces, action), action) == pieces,
{
    assert(toggled(toggled(pieces, action), action) =~= pieces);
}

} // verus!

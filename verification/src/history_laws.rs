//! What holds of the history of a [`TableModel`]: undo and redo invert each
//! other, and the steps that edits are made of leave the earlier versions
//! of the document alone.

use vstd::prelude::*;
use crate::pieces::{
    TableEntry, action_ok, all_fit, names, lemma_offset_monotone, lemma_shown_text_concat,
    lemma_shown_text_grown, lemma_shown_total_concat, lemma_shown_single, lemma_toggled_twice,
    shifted, shifted_all, shown_text, shown_total, toggled,
};
use crate::table_model::{TableModel, replayed, rewound};

verus! {

/// Taking actions back changes neither the number of entries nor their ranges.
pub proof fn lemma_rewound_shape(
    pieces: Seq<TableEntry>,
    history: Seq<Seq<usize>>,
    from: int,
    to: int,
)
    ensures
        rewound(pieces, history, from, to).len() == pieces.len(),
        forall|i: int|
            0 <= i < pieces.len() ==> (#[trigger] rewound(pieces, history, from, to)[i]).hidden()
                == pieces[i].hidden(),
    decreases from - to,
{
    if from > to {
        lemma_rewound_shape(toggled(pieces, history[from - 1]), history, from - 1, to);
    }
}

/// Applying actions changes neither the number of entries nor their ranges.
pub proof fn lemma_replayed_shape(
    pieces: Seq<TableEntry>,
    history: Seq<Seq<usize>>,
    from: int,
    to: int,
)
    ensures
        replayed(pieces, history, from, to).len() == pieces.len(),
        forall|i: int|
            0 <= i < pieces.len() ==> (#[trigger] replayed(pieces, history, from, to)[i]).hidden()
                == pieces[i].hidden(),
    decreases to - from,
{
    if to > from {
        lemma_replayed_shape(toggled(pieces, history[from]), history, from + 1, to);
    }
}

/// In every version the ranges lie inside their buffers, if they do now.
pub proof fn lemma_versions_fit(m: TableModel, k: int)
    requires
        all_fit(m.pieces, m.original.len() as int, m.add.len() as int),
    ensures
        m.pieces_at(k).len() == m.pieces.len(),
        all_fit(m.pieces_at(k), m.original.len() as int, m.add.len() as int),
{
    lemma_rewound_shape(m.pieces, m.history, m.cursor, k);
    lemma_replayed_shape(m.pieces, m.history, m.cursor, k);
    let at_k = m.pieces_at(k);
    assert forall|i: int| 0 <= i < at_k.len() implies (#[trigger] at_k[i]).fits_in(
        m.original.len() as int,
        m.add.len() as int,
    ) by {
        assert(at_k[i].hidden() == m.pieces[i].hidden());
        assert(m.pieces[i].fits_in(m.original.len() as int, m.add.len() as int));
    }
}

/// Taking back the actions below `from` reads only those actions.
pub proof fn lemma_rewound_reads_below(
    pieces: Seq<TableEntry>,
    history: Seq<Seq<usize>>,
    other: Seq<Seq<usize>>,
    from: int,
    to: int,
)
    requires
        0 <= to,
        from <= history.len(),
        from <= other.len(),
        forall|j: int| 0 <= j < from ==> history[j] == other[j],
    ensures
        rewound(pieces, history, from, to) == rewound(pieces, other, from, to),
    decreases from - to,
{
    if from > to {
        lemma_rewound_reads_below(
            toggled(pieces, history[from - 1]),
            history,
            other,
            from - 1,
            to,
        );
    }
}

/// Undo leaves every version of the document as it was.
pub proof fn lemma_undo_keeps_versions(m: TableModel, k: int)
    requires
        0 < m.cursor <= m.history.len(),
    ensures
        m.undo().pieces_at(k) == m.pieces_at(k),
        m.undo().version(k) == m.version(k),
{
    let u = m.undo();
    let last = m.history[m.cursor - 1];
    if k >= m.cursor {
        lemma_toggled_twice(m.pieces, last);
        assert(u.pieces_at(k) == replayed(toggled(u.pieces, last), m.history, m.cursor, k));
        assert(rewound(m.pieces, m.history, m.cursor, m.cursor) == m.pieces);
        assert(replayed(m.pieces, m.history, m.cursor, m.cursor) == m.pieces);
    } else {
        assert(m.pieces_at(k) == rewound(toggled(m.pieces, last), m.history, m.cursor - 1, k));
    }
}

/// Redo leaves every version of the document as it was.
pub proof fn lemma_redo_keeps_versions(m: TableModel, k: int)
    requires
        0 <= m.cursor < m.history.len(),
    ensures
        m.redo().pieces_at(k) == m.pieces_at(k),
        m.redo().version(k) == m.version(k),
{
    let r = m.redo();
    let next = m.history[m.cursor];
    if k <= m.cursor {
        lemma_toggled_twice(m.pieces, next);
        assert(r.pieces_at(k) == rewound(toggled(r.pieces, next), m.history, m.cursor, k));
        assert(rewound(m.pieces, m.history, m.cursor, m.cursor) == m.pieces);
    } else {
        assert(m.pieces_at(k) == replayed(toggled(m.pieces, next), m.history, m.cursor + 1, k));
        assert(rewound(r.pieces, m.history, m.cursor + 1, m.cursor + 1) == r.pieces);
        assert(replayed(r.pieces, m.history, m.cursor + 1, m.cursor + 1) == r.pieces);
    }
}

/// Undo and redo keep a state well formed.
pub proof fn lemma_undo_redo_wf(m: TableModel)
    requires
        m.wf(),
    ensures
        m.cursor > 0 ==> m.undo().wf(),
        m.cursor < m.history.len() ==> m.redo().wf(),
{
    if m.cursor > 0 {
        let u = m.undo();
        assert forall|k: int| 0 <= k <= u.history.len() implies (#[trigger] u.version(k)).len()
            <= u.original.len() + u.add.len() by {
            lemma_undo_keeps_versions(m, k);
        }
        lemma_toggled_fit(
            m.pieces,
            m.history[m.cursor - 1],
            m.original.len() as int,
            m.add.len() as int,
        );
    }
    if m.cursor < m.history.len() {
        let r = m.redo();
        assert forall|k: int| 0 <= k <= r.history.len() implies (#[trigger] r.version(k)).len()
            <= r.original.len() + r.add.len() by {
            lemma_redo_keeps_versions(m, k);
        }
        lemma_toggled_fit(
            m.pieces,
            m.history[m.cursor],
            m.original.len() as int,
            m.add.len() as int,
        );
    }
}

/// Inverting visibility keeps ranges inside their buffers.
pub proof fn lemma_toggled_fit(
    pieces: Seq<TableEntry>,
    action: Seq<usize>,
    original_len: int,
    add_len: int,
)
    requires
        all_fit(pieces, original_len, add_len),
    ensures
        all_fit(toggled(pieces, action), original_len, add_len),
{
    let t = toggled(pieces, action);
    assert forall|i: int| 0 <= i < t.len() implies (#[trigger] t[i]).fits_in(
        original_len,
        add_len,
    ) by {
        assert(pieces[i].fits_in(original_len, add_len));
    }
}

/// Undo, then redo, gives the state back; so does redo, then undo.
pub proof fn lemma_undo_redo_identity(m: TableModel)
    requires
        m.structure(),
    ensures
        m.cursor > 0 ==> m.undo().redo() == m,
        m.cursor < m.history.len() ==> m.redo().undo() == m,
{
    if m.cursor > 0 {
        lemma_toggled_twice(m.pieces, m.history[m.cursor - 1]);
    }
    if m.cursor < m.history.len() {
        lemma_toggled_twice(m.pieces, m.history[m.cursor]);
    }
}

/// The state after `n` undos in a row.
pub open spec fn undo_times(m: TableModel, n: nat) -> TableModel
    decreases n,
{
    if n == 0 {
        m
    } else {
        undo_times(m.undo(), (n - 1) as nat)
    }
}

/// The state after `n` redos in a row.
pub open spec fn redo_times(m: TableModel, n: nat) -> TableModel
    decreases n,
{
    if n == 0 {
        m
    } else {
        redo_times(m.redo(), (n - 1) as nat)
    }
}

/// One more redo after `n` redos is `n` redos after one redo.
proof fn lemma_redo_times_last(m: TableModel, n: nat)
    ensures
        redo_times(m, n + 1) == redo_times(m, n).redo(),
    decreases n,
{
    if n > 0 {
        lemma_redo_times_last(m.redo(), (n - 1) as nat);
        assert(redo_times(m, n + 1) == redo_times(m.redo(), n));
    } else {
        assert(redo_times(m, 1) == redo_times(m.redo(), 0));
    }
}

/// `n` undos in a row, then `n` redos in a row, give the state back.
pub proof fn lemma_undo_redo_times_identity(m: TableModel, n: nat)
    requires
        m.structure(),
        n <= m.cursor,
    ensures
        redo_times(undo_times(m, n), n) == m,
    decreases n,
{
    if n > 0 {
        let u = m.undo();
        lemma_toggled_fit(
            m.pieces,
            m.history[m.cursor - 1],
            m.original.len() as int,
            m.add.len() as int,
        );
        lemma_undo_redo_times_identity(u, (n - 1) as nat);
        // redo_times(undo_times(u, n - 1), n - 1) == u
        lemma_redo_times_last(undo_times(u, (n - 1) as nat), (n - 1) as nat);
        lemma_undo_redo_identity(m);
    }
}

/// Rewriting an action for an entry put in at `at` keeps it meaningful,
/// and the rewritten action does not name the new entry.
pub proof fn lemma_shifted_ok(action: Seq<usize>, at: int, table_len: int)
    requires
        action_ok(action, table_len),
        0 <= at <= table_len < usize::MAX,
    ensures
        action_ok(shifted(action, at, 1), table_len + 1),
        !names(shifted(action, at, 1), at),
{
    let s = shifted(action, at, 1);
    assert forall|i: int, j: int| 0 <= i < s.len() && 0 <= j < s.len() && i != j implies s[i]
        != s[j] by {
        assert(action[i] != action[j]);
        assert(action[i] < table_len && action[j] < table_len);
    }
    assert forall|t: int| 0 <= t < s.len() implies (#[trigger] s[t]) < table_len + 1 by {
        assert(action[t] < table_len);
    }
    if names(s, at) {
        let t = choose|t: int| 0 <= t < s.len() && s[t] == at;
        assert(action[t] < table_len);
    }
}

/// An action that names only entries before `at` is not changed by the
/// rewriting for an entry put in at `at`.
pub proof fn lemma_shifted_beyond(action: Seq<usize>, at: int)
    requires
        action_ok(action, at),
    ensures
        shifted(action, at, 1) == action,
{
    assert(shifted(action, at, 1) =~= action);
}

/// Putting an entry in and inverting by the rewritten action is inverting
/// by the action and then putting the entry in.
pub proof fn lemma_toggled_with_piece(
    pieces: Seq<TableEntry>,
    action: Seq<usize>,
    index: int,
    entry: TableEntry,
)
    requires
        action_ok(action, pieces.len() as int),
        0 <= index <= pieces.len() < usize::MAX,
    ensures
        toggled(pieces.insert(index, entry), shifted(action, index, 1)) == toggled(
            pieces,
            action,
        ).insert(index, entry),
{
    let s = shifted(action, index, 1);
    let lhs = toggled(pieces.insert(index, entry), s);
    let rhs = toggled(pieces, action).insert(index, entry);
    lemma_shifted_ok(action, index, pieces.len() as int);
    assert forall|j: int| 0 <= j < lhs.len() implies lhs[j] == rhs[j] by {
        if j < index {
            if names(action, j) {
                let t = choose|t: int| 0 <= t < action.len() && action[t] == j;
                assert(s[t] == j as usize);
            }
            if names(s, j) {
                let t = choose|t: int| 0 <= t < s.len() && s[t] == j;
                assert(action[t] < pieces.len());
                assert(action[t] == j as usize);
            }
        } else if j > index {
            if names(action, j - 1) {
                let t = choose|t: int| 0 <= t < action.len() && action[t] == j - 1;
                assert(s[t] == j as usize);
            }
            if names(s, j) {
                let t = choose|t: int| 0 <= t < s.len() && s[t] == j;
                assert(action[t] < pieces.len());
                assert(action[t] == (j - 1) as usize);
            }
        }
    }
    assert(lhs =~= rhs);
}

/// Putting an entry in and taking the rewritten actions back is taking
/// the actions back and then putting the entry in.
pub proof fn lemma_rewound_with_piece(
    pieces: Seq<TableEntry>,
    history: Seq<Seq<usize>>,
    from: int,
    to: int,
    index: int,
    entry: TableEntry,
)
    requires
        0 <= to,
        from <= history.len(),
        forall|j: int|
            0 <= j < history.len() ==> action_ok(#[trigger] history[j], pieces.len() as int),
        0 <= index <= pieces.len() < usize::MAX,
    ensures
        rewound(pieces.insert(index, entry), shifted_all(history, index, 1), from, to) == rewound(
            pieces,
            history,
            from,
            to,
        ).insert(index, entry),
    decreases from - to,
{
    if from > to {
        let a = history[from - 1];
        assert(action_ok(a, pieces.len() as int));
        lemma_toggled_with_piece(pieces, a, index, entry);
        assert(shifted_all(history, index, 1)[from - 1] == shifted(a, index, 1));
        lemma_rewound_with_piece(toggled(pieces, a), history, from - 1, to, index, entry);
    }
}

/// Putting an entry in and applying the rewritten actions is applying
/// the actions and then putting the entry in.
pub proof fn lemma_replayed_with_piece(
    pieces: Seq<TableEntry>,
    history: Seq<Seq<usize>>,
    from: int,
    to: int,
    index: int,
    entry: TableEntry,
)
    requires
        0 <= from,
        to <= history.len(),
        forall|j: int|
            0 <= j < history.len() ==> action_ok(#[trigger] history[j], pieces.len() as int),
        0 <= index <= pieces.len() < usize::MAX,
    ensures
        replayed(pieces.insert(index, entry), shifted_all(history, index, 1), from, to) == replayed(
            pieces,
            history,
            from,
            to,
        ).insert(index, entry),
    decreases to - from,
{
    if to > from {
        let a = history[from];
        assert(action_ok(a, pieces.len() as int));
        lemma_toggled_with_piece(pieces, a, index, entry);
        assert(shifted_all(history, index, 1)[from] == shifted(a, index, 1));
        lemma_replayed_with_piece(toggled(pieces, a), history, from + 1, to, index, entry);
    }
}

/// A table shows what its part before `i` shows, then what the rest shows.
pub proof fn lemma_shown_split(original: Seq<u8>, add: Seq<u8>, pieces: Seq<TableEntry>, i: int)
    requires
        0 <= i <= pieces.len(),
    ensures
        shown_text(original, add, pieces) == shown_text(original, add, pieces.take(i))
            + shown_text(original, add, pieces.skip(i)),
        shown_total(pieces) == shown_total(pieces.take(i)) + shown_total(pieces.skip(i)),
{
    assert(pieces =~= pieces.take(i) + pieces.skip(i));
    lemma_shown_text_concat(original, add, pieces.take(i), pieces.skip(i));
    lemma_shown_total_concat(pieces.take(i), pieces.skip(i));
}

/// With `entry` put in at `index`, a table shows what it showed before
/// `index`, then what `entry` shows, then what it showed from `index` on.
pub proof fn lemma_shown_with_piece(
    original: Seq<u8>,
    add: Seq<u8>,
    pieces: Seq<TableEntry>,
    index: int,
    entry: TableEntry,
)
    requires
        0 <= index <= pieces.len(),
    ensures
        shown_text(original, add, pieces.insert(index, entry)) == shown_text(
            original,
            add,
            pieces.take(index),
        ) + entry.shown(original, add) + shown_text(original, add, pieces.skip(index)),
        shown_total(pieces.insert(index, entry)) == shown_total(pieces) + entry.shown_len(),
        pieces.insert(index, entry).take(index) == pieces.take(index),
        pieces.insert(index, entry).skip(index + 1) == pieces.skip(index),
{
    let with = pieces.insert(index, entry);
    assert(with =~= (pieces.take(index) + seq![entry]) + pieces.skip(index));
    assert(with.take(index) =~= pieces.take(index));
    assert(with.skip(index + 1) =~= pieces.skip(index));
    lemma_shown_text_concat(original, add, pieces.take(index) + seq![entry], pieces.skip(index));
    lemma_shown_text_concat(original, add, pieces.take(index), seq![entry]);
    lemma_shown_total_concat(pieces.take(index) + seq![entry], pieces.skip(index));
    lemma_shown_total_concat(pieces.take(index), seq![entry]);
    lemma_shown_single(original, add, entry);
    lemma_shown_split(original, add, pieces, index);
}

/// A hidden entry put into the table, with the actions rewritten for it,
/// changes no version of the document.
pub proof fn lemma_with_hidden_piece(m: TableModel, index: int, entry: TableEntry)
    requires
        m.structure(),
        0 <= index <= m.pieces.len() < usize::MAX,
        !entry.active,
        entry.fits_in(m.original.len() as int, m.add.len() as int),
    ensures
        m.with_piece(index, entry).structure(),
        m.with_piece(index, entry).doc() == m.doc(),
        m.with_piece(index, entry).len() == m.len(),
        forall|k: int|
            0 <= k <= m.history.len() ==> #[trigger] m.with_piece(index, entry).version(k)
                == m.version(k),
{
    let w = m.with_piece(index, entry);
    assert forall|i: int| 0 <= i < w.pieces.len() implies (#[trigger] w.pieces[i]).fits_in(
        w.original.len() as int,
        w.add.len() as int,
    ) by {
        if i < index {
            assert(m.pieces[i].fits_in(m.original.len() as int, m.add.len() as int));
        } else if i > index {
            assert(m.pieces[i - 1].fits_in(m.original.len() as int, m.add.len() as int));
        }
    }
    assert forall|j: int| 0 <= j < w.history.len() implies action_ok(
        #[trigger] w.history[j],
        w.pieces.len() as int,
    ) by {
        assert(action_ok(m.history[j], m.pieces.len() as int));
        lemma_shifted_ok(m.history[j], index, m.pieces.len() as int);
    }
    lemma_shown_with_piece(m.original, m.add, m.pieces, index, entry);
    lemma_shown_split(m.original, m.add, m.pieces, index);
    assert(w.doc() =~= m.doc());
    assert forall|k: int| 0 <= k <= m.history.len() implies #[trigger] w.version(k) == m.version(
        k,
    ) by {
        if k <= m.cursor {
            lemma_rewound_with_piece(m.pieces, m.history, m.cursor, k, index, entry);
        } else {
            lemma_replayed_with_piece(m.pieces, m.history, m.cursor, k, index, entry);
        }
        let then = m.pieces_at(k);
        lemma_rewound_shape(m.pieces, m.history, m.cursor, k);
        lemma_replayed_shape(m.pieces, m.history, m.cursor, k);
        lemma_shown_with_piece(m.original, m.add, then, index, entry);
        lemma_shown_split(m.original, m.add, then, index);
        assert(w.version(k) =~= m.version(k));
    }
}

/// Forgetting the actions that could be redone changes no version of the
/// document up to the current one.
pub proof fn lemma_pruned(m: TableModel)
    requires
        m.structure(),
    ensures
        m.pruned().structure(),
        m.pruned().history.len() == m.cursor,
        forall|k: int| 0 <= k <= m.cursor ==> #[trigger] m.pruned().version(k) == m.version(k),
{
    let p = m.pruned();
    assert forall|j: int| 0 <= j < p.history.len() implies action_ok(
        #[trigger] p.history[j],
        p.pieces.len() as int,
    ) by {
        assert(p.history[j] == m.history[j]);
    }
    assert forall|k: int| 0 <= k <= m.cursor implies #[trigger] p.version(k) == m.version(k) by {
        lemma_rewound_reads_below(m.pieces, m.history, p.history, m.cursor, k);
    }
}

/// Bytes appended to the add buffer change no version of the document.
pub proof fn lemma_add_grown(m: TableModel, text: Seq<u8>)
    requires
        m.structure(),
    ensures
        (TableModel { add: m.add + text, ..m }).structure(),
        forall|k: int|
            #[trigger] (TableModel { add: m.add + text, ..m }).version(k) == m.version(k),
{
    let g = TableModel { add: m.add + text, ..m };
    assert forall|i: int| 0 <= i < g.pieces.len() implies (#[trigger] g.pieces[i]).fits_in(
        g.original.len() as int,
        g.add.len() as int,
    ) by {
        assert(m.pieces[i].fits_in(m.original.len() as int, m.add.len() as int));
    }
    assert forall|k: int| #[trigger] g.version(k) == m.version(k) by {
        lemma_versions_fit(m, k);
        assert(g.pieces_at(k) == m.pieces_at(k));
        assert(m.original + Seq::<u8>::empty() =~= m.original);
        lemma_shown_text_grown(m.original, m.add, Seq::empty(), text, m.pieces_at(k));
    }
}

/// Inverting the entries of an action and recording it as the latest
/// one changes no version of the document up to the one that was current.
pub proof fn lemma_switched_recorded(m: TableModel, action: Seq<usize>)
    requires
        m.structure(),
        action_ok(action, m.pieces.len() as int),
    ensures
        m.switched(action).record(action).structure(),
        m.switched(action).record(action).cursor == m.cursor + 1,
        m.switched(action).record(action).history.len() == m.cursor + 1,
        forall|k: int|
            0 <= k <= m.cursor ==> #[trigger] m.switched(action).record(action).version(k)
                == m.version(k),
{
    let r = m.switched(action).record(action);
    lemma_toggled_fit(m.pieces, action, m.original.len() as int, m.add.len() as int);
    assert forall|j: int| 0 <= j < r.history.len() implies action_ok(
        #[trigger] r.history[j],
        r.pieces.len() as int,
    ) by {
        if j < m.cursor {
            assert(r.history[j] == m.history[j]);
        }
    }
    assert forall|k: int| 0 <= k <= m.cursor implies #[trigger] r.version(k) == m.version(k) by {
        lemma_toggled_twice(m.pieces, action);
        assert(r.history[m.cursor] == action);
        assert(r.pieces_at(k) == rewound(toggled(r.pieces, action), r.history, m.cursor, k));
        lemma_rewound_reads_below(m.pieces, m.history, r.history, m.cursor, k);
    }
}

/// Only one entry holds a given byte of the document.
pub proof fn lemma_holder_unique(m: TableModel, i: int, pos: int)
    requires
        all_fit(m.pieces, m.original.len() as int, m.add.len() as int),
        m.holds(i, pos),
    ensures
        m.holder(pos) == i,
{
    let j = m.holder(pos);
    assert(m.holds(j, pos));
    assert forall|t: int| 0 <= t < m.pieces.len() implies (#[trigger] m.pieces[t]).shown_len()
        >= 0 by {
        assert(m.pieces[t].fits_in(m.original.len() as int, m.add.len() as int));
    }
    if i < j {
        lemma_offset_monotone(m.pieces, i, j);
    } else if j < i {
        lemma_offset_monotone(m.pieces, j, i);
    }
}

/// An entry put at the end of the table, with ranges that lie inside the
/// buffers, is shown at the end of every version of the document.
pub proof fn lemma_with_last(m: TableModel, entry: TableEntry)
    requires
        m.structure(),
        m.pieces.len() < usize::MAX,
        entry.fits_in(m.original.len() as int, m.add.len() as int),
    ensures
        m.with_last(entry).structure(),
        m.with_last(entry).doc() == m.doc() + entry.shown(m.original, m.add),
        m.with_last(entry).len() == m.len() + entry.shown_len(),
        forall|k: int|
            0 <= k <= m.history.len() ==> #[trigger] m.with_last(entry).version(k) == m.version(k)
                + entry.shown(m.original, m.add),
{
    let n = m.pieces.len() as int;
    let w = m.with_last(entry);
    assert forall|j: int| 0 <= j < m.history.len() implies shifted(m.history[j], n, 1)
        == m.history[j] by {
        assert(action_ok(m.history[j], n));
        lemma_shifted_beyond(m.history[j], n);
    }
    assert(shifted_all(m.history, n, 1) =~= m.history);
    assert(m.pieces.push(entry) =~= m.pieces.insert(n, entry));
    assert forall|i: int| 0 <= i < w.pieces.len() implies (#[trigger] w.pieces[i]).fits_in(
        w.original.len() as int,
        w.add.len() as int,
    ) by {
        if i < n {
            assert(m.pieces[i].fits_in(m.original.len() as int, m.add.len() as int));
        }
    }
    assert forall|j: int| 0 <= j < w.history.len() implies action_ok(
        #[trigger] w.history[j],
        w.pieces.len() as int,
    ) by {
        assert(action_ok(m.history[j], n));
    }
    assert(w.pieces.drop_last() =~= m.pieces);
    assert forall|k: int| 0 <= k <= m.history.len() implies #[trigger] w.version(k) == m.version(k)
        + entry.shown(m.original, m.add) by {
        if k <= m.cursor {
            lemma_rewound_with_piece(m.pieces, m.history, m.cursor, k, n, entry);
        } else {
            lemma_replayed_with_piece(m.pieces, m.history, m.cursor, k, n, entry);
        }
        let then = m.pieces_at(k);
        lemma_rewound_shape(m.pieces, m.history, m.cursor, k);
        lemma_replayed_shape(m.pieces, m.history, m.cursor, k);
        assert(w.pieces_at(k) =~= then.push(entry));
        assert(then.push(entry).drop_last() =~= then);
    }
}

/// What reading more of the file does: the bytes are at the end of
/// every version of the document.
pub proof fn lemma_append_original(m: TableModel, bytes: Seq<u8>)
    requires
        m.wf(),
        m.pieces.len() < usize::MAX,
        m.original.len() + m.add.len() + bytes.len() <= usize::MAX,
    ensures
        m.append_original(bytes).wf(),
        m.append_original(bytes).doc() == m.doc() + bytes,
        m.append_original(bytes).len() == m.len() + bytes.len(),
        forall|k: int|
            0 <= k <= m.history.len() ==> #[trigger] m.append_original(bytes).version(k)
                == m.version(k) + bytes,
{
    let g = TableModel { original: m.original + bytes, ..m };
    let entry = TableEntry {
        is_add_buffer: false,
        start_index: m.original.len() as usize,
        end_index: (m.original.len() + bytes.len()) as usize,
        active: true,
    };
    let r = m.append_original(bytes);
    assert(r == g.with_last(entry));
    assert forall|i: int| 0 <= i < g.pieces.len() implies (#[trigger] g.pieces[i]).fits_in(
        g.original.len() as int,
        g.add.len() as int,
    ) by {
        assert(m.pieces[i].fits_in(m.original.len() as int, m.add.len() as int));
    }
    lemma_with_last(g, entry);
    assert(entry.shown(g.original, g.add) =~= bytes);
    assert(m.add + Seq::<u8>::empty() =~= m.add);
    assert forall|k: int| 0 <= k <= m.history.len() implies #[trigger] r.version(k) == m.version(k)
        + bytes by {
        lemma_versions_fit(m, k);
        assert(g.pieces_at(k) == m.pieces_at(k));
        lemma_shown_text_grown(m.original, m.add, bytes, Seq::empty(), m.pieces_at(k));
        assert(g.version(k) == m.version(k));
        assert(r.version(k) == g.version(k) + entry.shown(g.original, g.add));
    }
    crate::edit_laws::lemma_current_version(m);
    crate::edit_laws::lemma_current_version(r);
    assert forall|k: int| 0 <= k <= r.history.len() implies (#[trigger] r.version(k)).len()
        <= r.original.len() + r.add.len() by {
        assert(r.version(k) == m.version(k) + bytes);
        assert(m.version(k).len() <= m.original.len() + m.add.len());
    }
    crate::edit_laws::lemma_doc_len(m);
    crate::edit_laws::lemma_doc_len(r);
}

/// Inverting the visibility of one entry changes the counted length by
/// what that entry shows before and after.
pub proof fn lemma_switch_one(pieces: Seq<TableEntry>, i: int, entry: TableEntry)
    requires
        0 <= i < pieces.len(),
    ensures
        shown_total(pieces.update(i, entry)) == shown_total(pieces) - pieces[i].shown_len()
            + entry.shown_len(),
{
    let after = pieces.update(i, entry);
    lemma_shown_split(Seq::empty(), Seq::empty(), pieces, i);
    lemma_shown_split(Seq::empty(), Seq::empty(), after, i);
    lemma_shown_split(Seq::empty(), Seq::empty(), pieces.skip(i), 1);
    lemma_shown_split(Seq::empty(), Seq::empty(), after.skip(i), 1);
    assert(after.take(i) =~= pieces.take(i));
    assert(after.skip(i).skip(1) =~= pieces.skip(i).skip(1));
    assert(pieces.skip(i).take(1) =~= seq![pieces[i]]);
    assert(after.skip(i).take(1) =~= seq![entry]);
    lemma_shown_single(Seq::empty(), Seq::empty(), pieces[i]);
    lemma_shown_single(Seq::empty(), Seq::empty(), entry);
}

/// Inverting by one more index of an action that lists no index twice is
/// inverting that one entry.
pub proof fn lemma_toggled_step(pieces: Seq<TableEntry>, action: Seq<usize>, t: int)
    requires
        action_ok(action, pieces.len() as int),
        0 <= t < action.len(),
    ensures
        toggled(pieces, action.take(t + 1)) == toggled(pieces, action.take(t)).update(
            action[t] as int,
            pieces[action[t] as int].flipped(),
        ),
        toggled(pieces, action.take(t))[action[t] as int] == pieces[action[t] as int],
{
    let done = action.take(t);
    let more = action.take(t + 1);
    let lhs = toggled(pieces, more);
    let rhs = toggled(pieces, done).update(action[t] as int, pieces[action[t] as int].flipped());
    assert(more[t] == action[t]);
    if names(done, action[t] as int) {
        let u = choose|u: int| 0 <= u < done.len() && done[u] == action[t];
        assert(action[u] == action[t]);
    }
    assert forall|i: int| 0 <= i < pieces.len() implies lhs[i] == rhs[i] by {
        if i == action[t] {
            assert(names(more, i));
        } else {
            if names(done, i) {
                let u = choose|u: int| 0 <= u < done.len() && done[u] == i;
                assert(more[u] == i as usize);
            }
            if names(more, i) {
                let u = choose|u: int| 0 <= u < more.len() && more[u] == i;
                assert(u < t);
                assert(done[u] == i as usize);
            }
        }
    }
    assert(lhs =~= rhs);
}

/// An entry with a range inside its buffer, put into the table with the
/// actions rewritten for it, leaves the state well structured.
pub proof fn lemma_structure_with_piece(m: TableModel, index: int, entry: TableEntry)
    requires
        m.structure(),
        0 <= index <= m.pieces.len() < usize::MAX,
        entry.fits_in(m.original.len() as int, m.add.len() as int),
    ensures
        m.with_piece(index, entry).structure(),
{
    lemma_with_hidden_piece(m, index, entry.hidden());
    let h = m.with_piece(index, entry.hidden());
    let w = m.with_piece(index, entry);
    assert forall|i: int| 0 <= i < w.pieces.len() implies (#[trigger] w.pieces[i]).fits_in(
        w.original.len() as int,
        w.add.len() as int,
    ) by {
        if i != index {
            assert(h.pieces[i].fits_in(w.original.len() as int, w.add.len() as int));
        }
    }
}

} // verus!

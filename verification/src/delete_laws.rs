//! What a deletion on a [`TableModel`] does to the document.

use vstd::prelude::*;
use crate::pieces::{
    TableEntry, action_ok, all_fit, lemma_offset_monotone, lemma_shown_single,
    lemma_shown_text_concat, lemma_shown_total_is_len, names, offset_of, shown_text, toggled,
};
use crate::table_model::{TableModel, left_rest, right_rest, visible_between};
use crate::history_laws::{
    lemma_pruned, lemma_shown_split, lemma_switched_recorded, lemma_with_hidden_piece,
};
use crate::edit_laws::{lemma_current_version, lemma_doc_len, lemma_holder_exists};

verus! {

/// A list of the visible entries of a range lists exactly those, in
/// ascending order.
pub proof fn lemma_visible_between(pieces: Seq<TableEntry>, from: int, to: int)
    requires
        0 <= from <= to <= pieces.len() <= usize::MAX,
    ensures
        forall|j: int|
            names(visible_between(pieces, from, to), j) <==> from <= j < to && pieces[j].active,
        forall|t: int|
            0 <= t < visible_between(pieces, from, to).len() ==> from <= (
            #[trigger] visible_between(pieces, from, to)[t]) < to,
        visible_between(pieces, from, to).no_duplicates(),
    decreases to - from,
{
    let v = visible_between(pieces, from, to);
    if to > from {
        let w = visible_between(pieces, from, to - 1);
        lemma_visible_between(pieces, from, to - 1);
        if pieces[to - 1].active {
            assert(v == w.push((to - 1) as usize));
            assert(v[v.len() - 1] == to - 1);
            assert forall|j: int| names(v, j) <==> from <= j < to && pieces[j].active by {
                if names(v, j) {
                    let t = choose|t: int| 0 <= t < v.len() && v[t] == j;
                    if t < w.len() {
                        assert(w[t] == j);
                        assert(names(w, j));
                    }
                }
                if from <= j < to && pieces[j].active {
                    if j < to - 1 {
                        assert(names(w, j));
                        let t = choose|t: int| 0 <= t < w.len() && w[t] == j;
                        assert(v[t] == j);
                    }
                }
            }
            assert forall|a: int, b: int|
                0 <= a < v.len() && 0 <= b < v.len() && a != b implies v[a]
                != v[b] by {
                if a < w.len() && b < w.len() {
                    assert(w[a] != w[b]);
                } else if a < w.len() {
                    assert(w[a] < to - 1);
                } else if b < w.len() {
                    assert(w[b] < to - 1);
                }
            }
            assert forall|t: int| 0 <= t < v.len() implies from <= (#[trigger] v[t]) < to by {
                if t < w.len() {
                    assert(v[t] == w[t]);
                }
            }
        } else {
            assert forall|j: int| names(v, j) <==> from <= j < to && pieces[j].active by {
                assert(names(w, j) <==> from <= j < to - 1 && pieces[j].active);
            }
        }
    } else {
        assert forall|j: int| names(v, j) <==> from <= j < to && pieces[j].active by {}
    }
}

/// Entries that are all hidden show nothing.
pub proof fn lemma_shown_hidden(original: Seq<u8>, add: Seq<u8>, pieces: Seq<TableEntry>)
    requires
        forall|i: int| 0 <= i < pieces.len() ==> !(#[trigger] pieces[i]).active,
    ensures
        shown_text(original, add, pieces) == Seq::<u8>::empty(),
    decreases pieces.len(),
{
    if pieces.len() > 0 {
        lemma_shown_hidden(original, add, pieces.drop_last());
        assert(!pieces.last().active);
        assert(shown_text(original, add, pieces) =~= Seq::<u8>::empty());
    }
}

/// An action with one more index lists that index and what it listed
/// before.
pub proof fn lemma_names_push(action: Seq<usize>, index: usize, j: int)
    ensures
        names(action.push(index), j) <==> names(action, j) || j == index,
{
    let more = action.push(index);
    if names(action, j) {
        let t = choose|t: int| 0 <= t < action.len() && action[t] == j;
        assert(more[t] == j);
    }
    if j == index {
        assert(more[action.len() as int] == j);
    }
    if names(more, j) {
        let t = choose|t: int| 0 <= t < more.len() && more[t] == j;
        if t < action.len() {
            assert(action[t] == j);
        }
    }
}

/// The same entries, all hidden.
pub open spec fn hidden_all(pieces: Seq<TableEntry>) -> Seq<TableEntry> {
    Seq::new(pieces.len(), |i: int| pieces[i].hidden())
}

/// The table after the entries from `first` to `last` were taken out.
pub open spec fn taken_out(
    pieces: Seq<TableEntry>,
    first: int,
    last: int,
    head: int,
    tail: int,
) -> Seq<TableEntry> {
    let left = if head > 0 {
        seq![left_rest(pieces, first, head)]
    } else {
        Seq::empty()
    };
    let right = if tail > 0 {
        seq![right_rest(pieces, last, tail)]
    } else {
        Seq::empty()
    };
    pieces.take(first) + seq![pieces[first].hidden()] + left + hidden_all(
        pieces.subrange(first + 1, last + 1),
    ) + right + pieces.skip(last + 1)
}

/// What the table shows after the entries from `first` to `last` were
/// taken out.
pub proof fn lemma_shown_taken_out(
    original: Seq<u8>,
    add: Seq<u8>,
    pieces: Seq<TableEntry>,
    first: int,
    last: int,
    head: int,
    tail: int,
)
    requires
        0 <= first <= last < pieces.len(),
        pieces[first].active,
        pieces[last].active,
        all_fit(pieces, original.len() as int, add.len() as int),
        0 <= head < pieces[first].len(),
        0 <= tail < pieces[last].len(),
    ensures
        shown_text(original, add, taken_out(pieces, first, last, head, tail)) == shown_text(
            original,
            add,
            pieces.take(first),
        ) + pieces[first].bytes(original, add).subrange(0, head) + pieces[last].bytes(
            original,
            add,
        ).subrange(pieces[last].len() - tail, pieces[last].len()) + shown_text(
            original,
            add,
            pieces.skip(last + 1),
        ),
{
    let left = if head > 0 {
        seq![left_rest(pieces, first, head)]
    } else {
        Seq::empty()
    };
    let right = if tail > 0 {
        seq![right_rest(pieces, last, tail)]
    } else {
        Seq::empty()
    };
    let a = pieces.take(first);
    let h = seq![pieces[first].hidden()];
    let mid = hidden_all(pieces.subrange(first + 1, last + 1));
    let z = pieces.skip(last + 1);
    assert(pieces[first].fits_in(original.len() as int, add.len() as int));
    assert(pieces[last].fits_in(original.len() as int, add.len() as int));
    lemma_shown_text_concat(original, add, a + h + left + mid + right, z);
    lemma_shown_text_concat(original, add, a + h + left + mid, right);
    lemma_shown_text_concat(original, add, a + h + left, mid);
    lemma_shown_text_concat(original, add, a + h, left);
    lemma_shown_text_concat(original, add, a, h);
    lemma_shown_single(original, add, pieces[first].hidden());
    lemma_shown_hidden(original, add, mid);
    if head > 0 {
        lemma_shown_single(original, add, left_rest(pieces, first, head));
        assert(left_rest(pieces, first, head).shown(original, add) =~= pieces[first].bytes(
            original,
            add,
        ).subrange(0, head));
    } else {
        assert(pieces[first].bytes(original, add).subrange(0, head) =~= Seq::<u8>::empty());
    }
    if tail > 0 {
        lemma_shown_single(original, add, right_rest(pieces, last, tail));
        assert(right_rest(pieces, last, tail).shown(original, add) =~= pieces[last].bytes(
            original,
            add,
        ).subrange(pieces[last].len() - tail, pieces[last].len()));
    } else {
        assert(pieces[last].bytes(original, add).subrange(
            pieces[last].len() - tail,
            pieces[last].len(),
        ) =~= Seq::<u8>::empty());
    }
    assert(shown_text(original, add, taken_out(pieces, first, last, head, tail)) =~= shown_text(
        original,
        add,
        pieces.take(first),
    ) + pieces[first].bytes(original, add).subrange(0, head) + pieces[last].bytes(
        original,
        add,
    ).subrange(pieces[last].len() - tail, pieces[last].len()) + shown_text(
        original,
        add,
        pieces.skip(last + 1),
    ));
}

/// The entry at index `j` of the table that is ready for taking the
/// entries from `first` to `last` out.
pub open spec fn staged_entry(
    pieces: Seq<TableEntry>,
    first: int,
    last: int,
    head: int,
    tail: int,
    j: int,
) -> TableEntry {
    let dl: int = if head > 0 {
        1
    } else {
        0
    };
    if j <= first {
        pieces[j]
    } else if head > 0 && j == first + 1 {
        left_rest(pieces, first, head).hidden()
    } else if j <= last + dl {
        pieces[j - dl]
    } else if tail > 0 && j == last + dl + 1 {
        right_rest(pieces, last, tail).hidden()
    } else if tail > 0 {
        pieces[j - dl - 1]
    } else {
        pieces[j - dl]
    }
}

/// Making the table ready for taking entries out leaves the state well
/// structured and changes no version of the document.
pub proof fn lemma_staged_out(m: TableModel, first: int, last: int, head: int, tail: int)
    requires
        m.structure(),
        0 <= first <= last < m.pieces.len(),
        m.staged_out(first, last, head, tail).pieces.len() <= usize::MAX,
        0 <= head < m.pieces[first].len(),
        0 <= tail < m.pieces[last].len(),
    ensures
        m.staged_out(first, last, head, tail).structure(),
        m.staged_out(first, last, head, tail).cursor == m.cursor,
        m.staged_out(first, last, head, tail).original == m.original,
        m.staged_out(first, last, head, tail).add == m.add,
        m.staged_out(first, last, head, tail).history.len() == m.history.len(),
        m.staged_out(first, last, head, tail).pieces.len() == m.pieces.len() + (if head > 0 {
            1int
        } else {
            0int
        }) + (if tail > 0 {
            1int
        } else {
            0int
        }),
        forall|j: int|
            0 <= j < m.staged_out(first, last, head, tail).pieces.len() ==> #[trigger] m.staged_out(
                first,
                last,
                head,
                tail,
            ).pieces[j] == staged_entry(m.pieces, first, last, head, tail, j),
        forall|k: int|
            0 <= k <= m.history.len() ==> #[trigger] m.staged_out(first, last, head, tail).version(
                k,
            ) == m.version(k),
{
    let left = left_rest(m.pieces, first, head);
    let right = right_rest(m.pieces, last, tail);
    assert(m.pieces[first].fits_in(m.original.len() as int, m.add.len() as int));
    assert(m.pieces[last].fits_in(m.original.len() as int, m.add.len() as int));
    let s1 = if tail > 0 {
        m.with_piece(last + 1, right.hidden())
    } else {
        m
    };
    if tail > 0 {
        lemma_with_hidden_piece(m, last + 1, right.hidden());
    }
    let staged = m.staged_out(first, last, head, tail);
    if head > 0 {
        lemma_with_hidden_piece(s1, first + 1, left.hidden());
    }
    assert forall|k: int| 0 <= k <= m.history.len() implies #[trigger] staged.version(k)
        == m.version(k) by {
        assert(s1.version(k) == m.version(k));
    }
}

/// The action that takes entries out lists the visible entries from
/// `first` to `last` and the two hidden entries that were made ready, and
/// nothing else, each once.
pub proof fn lemma_out_action(m: TableModel, first: int, last: int, head: int, tail: int)
    requires
        0 <= first <= last < m.pieces.len(),
        m.staged_out(first, last, head, tail).pieces.len() <= usize::MAX,
        m.staged_out(first, last, head, tail).pieces.len() == m.pieces.len() + (if head > 0 {
            1int
        } else {
            0int
        }) + (if tail > 0 {
            1int
        } else {
            0int
        }),
        head > 0 ==> !m.staged_out(first, last, head, tail).pieces[first + 1].active,
    ensures
        action_ok(
            m.out_action(first, last, head, tail),
            m.staged_out(first, last, head, tail).pieces.len() as int,
        ),
        forall|j: int|
            names(m.out_action(first, last, head, tail), j) <==> (first <= j <= last + (if head
                > 0 {
                1int
            } else {
                0int
            }) && m.staged_out(first, last, head, tail).pieces[j].active) || (head > 0 && j
                == first + 1) || (tail > 0 && j == last + (if head > 0 {
                1int
            } else {
                0int
            }) + 1),
{
    let dl: int = if head > 0 {
        1
    } else {
        0
    };
    let staged = m.staged_out(first, last, head, tail);
    let retired = visible_between(staged.pieces, first, last + dl + 1);
    let with_left = if head > 0 {
        retired.push((first + 1) as usize)
    } else {
        retired
    };
    let action = m.out_action(first, last, head, tail);
    lemma_visible_between(staged.pieces, first, last + dl + 1);
    assert forall|j: int| names(action, j) <==> (first <= j <= last + dl
        && staged.pieces[j].active) || (head > 0 && j == first + 1) || (tail > 0 && j == last + dl
        + 1) by {
        if head > 0 {
            lemma_names_push(retired, (first + 1) as usize, j);
        }
        if tail > 0 {
            lemma_names_push(with_left, (last + dl + 1) as usize, j);
        }
    }
    assert forall|t: int| 0 <= t < action.len() implies (#[trigger] action[t])
        < staged.pieces.len() by {
        if t < retired.len() {
            assert(action[t] == retired[t]);
        }
    }
    assert forall|a: int, b: int| 0 <= a < action.len() && 0 <= b < action.len() && a
        != b implies action[a] != action[b] by {
        if a < retired.len() {
            assert(action[a] == retired[a]);
            assert(names(retired, action[a] as int));
        }
        if b < retired.len() {
            assert(action[b] == retired[b]);
            assert(names(retired, action[b] as int));
        }
        if a < retired.len() && b < retired.len() {
            assert(retired[a] != retired[b]);
        }
    }
}

/// Taking entries out leaves the state well structured, makes the
/// table what [`taken_out`] says, and changes no earlier version of the
/// document.
pub proof fn lemma_take_out(m: TableModel, first: int, last: int, head: int, tail: int)
    requires
        m.structure(),
        0 <= first <= last < m.pieces.len(),
        m.take_out(first, last, head, tail).pieces.len() <= usize::MAX,
        m.pieces[first].active,
        m.pieces[last].active,
        0 <= head < m.pieces[first].len(),
        0 <= tail < m.pieces[last].len(),
    ensures
        m.take_out(first, last, head, tail).structure(),
        m.take_out(first, last, head, tail).cursor == m.cursor + 1,
        m.take_out(first, last, head, tail).history.len() == m.cursor + 1,
        m.take_out(first, last, head, tail).original == m.original,
        m.take_out(first, last, head, tail).add == m.add,
        m.take_out(first, last, head, tail).pieces == taken_out(m.pieces, first, last, head, tail),
        forall|k: int|
            0 <= k <= m.cursor ==> #[trigger] m.take_out(first, last, head, tail).version(k)
                == m.version(k),
{
    let staged = m.staged_out(first, last, head, tail);
    let action = m.out_action(first, last, head, tail);
    let r = staged.commit(action);
    lemma_staged_out(m, first, last, head, tail);
    if head > 0 {
        assert(
            staged.pieces[first + 1] == staged_entry(m.pieces, first, last, head, tail, first + 1)
        );
    }
    lemma_out_action(m, first, last, head, tail);
    lemma_switched_recorded(staged, action);
    assert forall|k: int| 0 <= k <= m.cursor implies #[trigger] r.version(k) == m.version(k) by {
        assert(staged.version(k) == m.version(k));
    }
    lemma_taken_out(m.pieces, staged.pieces, action, first, last, head, tail);
}

/// Inverting, in the table made ready, the visibility of the entries
/// that the action lists gives the table that [`taken_out`] describes.
proof fn lemma_taken_out(
    pieces: Seq<TableEntry>,
    staged: Seq<TableEntry>,
    action: Seq<usize>,
    first: int,
    last: int,
    head: int,
    tail: int,
)
    requires
        0 <= first <= last < pieces.len(),
        pieces[first].active,
        pieces[last].active,
        staged.len() == pieces.len() + (if head > 0 {
            1int
        } else {
            0int
        }) + (if tail > 0 {
            1int
        } else {
            0int
        }),
        forall|j: int|
            0 <= j < staged.len() ==> #[trigger] staged[j] == staged_entry(
                pieces,
                first,
                last,
                head,
                tail,
                j,
            ),
        forall|j: int|
            names(action, j) <==> (first <= j <= last + (if head > 0 {
                1int
            } else {
                0int
            }) && staged[j].active) || (head > 0 && j == first + 1) || (tail > 0 && j == last + (
            if head > 0 {
                1int
            } else {
                0int
            }) + 1),
    ensures
        toggled(staged, action) == taken_out(pieces, first, last, head, tail),
{
    let dl: int = if head > 0 {
        1
    } else {
        0
    };
    let want = taken_out(pieces, first, last, head, tail);
    let got = toggled(staged, action);
    assert(got.len() == want.len());
    assert forall|j: int| 0 <= j < got.len() implies got[j] == want[j] by {
        assert(staged[j] == staged_entry(pieces, first, last, head, tail, j));
        if j < first {
            assert(want[j] == pieces[j]);
        } else if j == first {
            assert(want[j] == pieces[first].hidden());
        } else if head > 0 && j == first + 1 {
            assert(want[j] == left_rest(pieces, first, head));
        } else if j <= last + dl {
            assert(want[j] == pieces[j - dl].hidden());
        } else if tail > 0 && j == last + dl + 1 {
            assert(want[j] == right_rest(pieces, last, tail));
        } else if tail > 0 {
            assert(want[j] == pieces[j - dl - 1]);
        } else {
            assert(want[j] == pieces[j - dl]);
        }
    }
    assert(got =~= want);
}

/// What a deletion does: the document loses its bytes `lo..hi`, the
/// deletion is the action that undo takes back next and nothing is left
/// to redo, and every earlier version of the document stays what it was.
pub proof fn lemma_delete(m: TableModel, lo: int, hi: int)
    requires
        m.structure(),
        0 <= lo < hi <= m.len(),
        m.delete(lo, hi).pieces.len() <= usize::MAX,
    ensures
        m.delete(lo, hi).structure(),
        m.delete(lo, hi).doc() == m.doc().subrange(0, lo) + m.doc().subrange(
            hi,
            m.doc().len() as int,
        ),
        m.delete(lo, hi).original == m.original,
        m.delete(lo, hi).add == m.add,
        m.delete(lo, hi).cursor == m.cursor + 1,
        m.delete(lo, hi).history.len() == m.cursor + 1,
        forall|k: int|
            0 <= k <= m.cursor ==> #[trigger] m.delete(lo, hi).version(k) == m.version(k),
{
    let r = m.delete(lo, hi);
    let doc = m.doc();
    lemma_doc_len(m);
    lemma_holder_exists(m, lo);
    lemma_holder_exists(m, hi - 1);
    let first = m.holder(lo);
    let last = m.holder(hi - 1);
    let head = lo - offset_of(m.pieces, first);
    let tail = offset_of(m.pieces, last) + m.pieces[last].len() - hi;
    let pf = m.pieces[first];
    let pl = m.pieces[last];
    assert(pf.fits_in(m.original.len() as int, m.add.len() as int));
    assert(pl.fits_in(m.original.len() as int, m.add.len() as int));
    assert forall|t: int| 0 <= t < m.pieces.len() implies (#[trigger] m.pieces[t]).shown_len()
        >= 0 by {
        assert(m.pieces[t].fits_in(m.original.len() as int, m.add.len() as int));
    }
    if last < first {
        lemma_offset_monotone(m.pieces, last, first);
    }
    let p = m.pruned();
    lemma_pruned(m);
    lemma_take_out(p, first, last, head, tail);
    lemma_shown_taken_out(m.original, m.add, m.pieces, first, last, head, tail);
    assert forall|k: int| 0 <= k <= m.cursor implies #[trigger] r.version(k) == m.version(k) by {
        assert(p.version(k) == m.version(k));
    }
    let a = shown_text(m.original, m.add, m.pieces.take(first));
    let z = shown_text(m.original, m.add, m.pieces.skip(last + 1));
    let window = shown_text(m.original, m.add, m.pieces.subrange(first, last + 1));
    lemma_shown_split(m.original, m.add, m.pieces, first);
    lemma_shown_split(m.original, m.add, m.pieces.skip(first), last + 1 - first);
    assert(m.pieces.skip(first).take(last + 1 - first) =~= m.pieces.subrange(first, last + 1));
    assert(m.pieces.skip(first).skip(last + 1 - first) =~= m.pieces.skip(last + 1));
    assert(doc == a + (window + z));
    lemma_window(m, first, last);
    assert(a.len() == offset_of(m.pieces, first));
    let fb = pf.bytes(m.original, m.add);
    let lb = pl.bytes(m.original, m.add);
    if first < last {
        lemma_offset_monotone(m.pieces, first, last);
    }
    assert(fb.len() == pf.len() && lb.len() == pl.len());
    assert(window.len() >= fb.len() && window.len() >= lb.len());
    assert(window.subrange(0, head) =~= window.subrange(0, fb.len() as int).subrange(0, head));
    assert(window.subrange(window.len() - tail, window.len() as int) =~= window.subrange(
        window.len() - lb.len(),
        window.len() as int,
    ).subrange(lb.len() - tail, lb.len() as int));
    assert(doc.subrange(0, lo) =~= a + window.subrange(0, head));
    assert(doc.subrange(hi, doc.len() as int) =~= window.subrange(
        window.len() - tail,
        window.len() as int,
    ) + z);
    assert(r.doc() =~= doc.subrange(0, lo) + doc.subrange(hi, doc.len() as int));
}

/// What the visible entries `first` and `last` and the entries between
/// them show begins with the bytes of `first` and ends with the bytes of
/// `last`, and is as long as the offsets of the two say.
proof fn lemma_window(m: TableModel, first: int, last: int)
    requires
        all_fit(m.pieces, m.original.len() as int, m.add.len() as int),
        0 <= first <= last < m.pieces.len(),
        m.pieces[first].active,
        m.pieces[last].active,
    ensures
        ({
            let window = shown_text(m.original, m.add, m.pieces.subrange(first, last + 1));
            let pf = m.pieces[first].bytes(m.original, m.add);
            let pl = m.pieces[last].bytes(m.original, m.add);
            &&& window.len() == offset_of(m.pieces, last) + m.pieces[last].len() - offset_of(
                m.pieces,
                first,
            )
            &&& window.subrange(0, pf.len() as int) == pf
            &&& window.subrange(window.len() - pl.len(), window.len() as int) == pl
        }),
{
    let w = m.pieces.subrange(first, last + 1);
    let window = shown_text(m.original, m.add, w);
    let pf = m.pieces[first].bytes(m.original, m.add);
    let pl = m.pieces[last].bytes(m.original, m.add);
    assert(m.pieces[first].fits_in(m.original.len() as int, m.add.len() as int));
    assert(m.pieces[last].fits_in(m.original.len() as int, m.add.len() as int));
    // the window ends with the last entry
    assert(w.drop_last() =~= m.pieces.subrange(first, last));
    assert(w.last() == m.pieces[last]);
    let inner = shown_text(m.original, m.add, w.drop_last());
    assert(window == inner + pl);
    // and begins with the first
    lemma_shown_split(m.original, m.add, w, 1);
    assert(w.take(1) =~= seq![m.pieces[first]]);
    lemma_shown_single(m.original, m.add, m.pieces[first]);
    let rest = shown_text(m.original, m.add, w.skip(1));
    assert(window == pf + rest);
    assert(window.subrange(0, pf.len() as int) =~= pf);
    assert(window.subrange(window.len() - pl.len(), window.len() as int) =~= pl);
    // its length
    lemma_shown_split(m.original, m.add, m.pieces.take(last), first);
    assert(m.pieces.take(last).take(first) =~= m.pieces.take(first));
    assert(m.pieces.take(last).skip(first) =~= m.pieces.subrange(first, last));
    lemma_doc_len(m);
    assert(all_fit(m.pieces.subrange(first, last), m.original.len() as int, m.add.len() as int));
    lemma_shown_total_is_len(m.original, m.add, m.pieces.subrange(first, last));
}

/// A deletion keeps a state well formed.
pub proof fn lemma_delete_wf(m: TableModel, lo: int, hi: int)
    requires
        m.wf(),
        0 <= lo < hi <= m.len(),
        m.delete(lo, hi).pieces.len() <= usize::MAX,
    ensures
        m.delete(lo, hi).wf(),
{
    let r = m.delete(lo, hi);
    lemma_delete(m, lo, hi);
    lemma_current_version(r);
    lemma_current_version(m);
    lemma_doc_len(m);
    assert forall|k: int| 0 <= k <= r.history.len() implies (#[trigger] r.version(k)).len()
        <= r.original.len() + r.add.len() by {
        if k <= m.cursor {
            assert(r.version(k) == m.version(k));
            assert(m.version(k).len() <= m.original.len() + m.add.len());
        } else {
            assert(m.version(m.cursor).len() <= m.original.len() + m.add.len());
            assert(k == r.cursor);
            assert(r.version(k) == r.doc());
        }
    }
}

/// Deleting what was just inserted gives the document back.
pub proof fn lemma_insert_then_delete(m: TableModel, text: Seq<u8>, at: int)
    requires
        m.structure(),
        0 <= at <= m.len(),
        text.len() > 0,
        m.add.len() + text.len() <= usize::MAX,
        m.insert(text, at).pieces.len() <= usize::MAX,
        m.insert(text, at).delete(at, at + text.len()).pieces.len() <= usize::MAX,
    ensures
        m.insert(text, at).delete(at, at + text.len()).doc() == m.doc(),
{
    let with = m.insert(text, at);
    crate::edit_laws::lemma_insert(m, text, at);
    lemma_doc_len(m);
    lemma_doc_len(with);
    lemma_delete(with, at, at + text.len());
    assert(with.delete(at, at + text.len()).doc() =~= m.doc());
}

/// After an insertion or a deletion nothing is left to redo, whatever
/// had been undone before it.
pub proof fn lemma_edit_forgets_redo(m: TableModel, text: Seq<u8>, at: int, lo: int, hi: int)
    requires
        m.structure(),
    ensures
        0 <= at <= m.len() && m.add.len() + text.len() <= usize::MAX && m.insert(
            text,
            at,
        ).pieces.len() <= usize::MAX ==> m.insert(text, at).cursor == m.insert(
            text,
            at,
        ).history.len(),
        0 <= lo < hi <= m.len() && m.delete(lo, hi).pieces.len() <= usize::MAX ==> m.delete(
            lo,
            hi,
        ).cursor == m.delete(lo, hi).history.len(),
{
    if 0 <= at <= m.len() && m.add.len() + text.len() <= usize::MAX && m.insert(
        text,
        at,
    ).pieces.len() <= usize::MAX {
        crate::edit_laws::lemma_insert(m, text, at);
    }
    if 0 <= lo < hi <= m.len() && m.delete(lo, hi).pieces.len() <= usize::MAX {
        lemma_delete(m, lo, hi);
    }
}

} // verus!

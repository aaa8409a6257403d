//! What the edits on a [`TableModel`] do to the document.

use vstd::prelude::*;
use crate::pieces::{
    TableEntry, action_ok, all_fit, lemma_offset_step, lemma_shown_single,
    lemma_shown_text_concat, lemma_shown_total_is_len, offset_of, names, shown_text, toggled,
};
use crate::table_model::TableModel;
use crate::history_laws::{
    lemma_add_grown, lemma_pruned, lemma_shown_split, lemma_shown_with_piece,
    lemma_switched_recorded, lemma_with_hidden_piece,
};

verus! {

/// The current version of the document is the document.
pub proof fn lemma_current_version(m: TableModel)
    ensures
        m.version(m.cursor) == m.doc(),
        m.pieces_at(m.cursor) == m.pieces,
{
    assert(crate::table_model::rewound(m.pieces, m.history, m.cursor, m.cursor) == m.pieces);
}

/// Where ranges lie inside their buffers, the document's length is the
/// one counted from the entries, and entry `i` begins at the length of
/// what the entries before it show.
pub proof fn lemma_doc_len(m: TableModel)
    requires
        all_fit(m.pieces, m.original.len() as int, m.add.len() as int),
    ensures
        m.doc().len() == m.len(),
        m.len() >= 0,
        forall|i: int|
            0 <= i <= m.pieces.len() ==> #[trigger] offset_of(m.pieces, i) == shown_text(
                m.original,
                m.add,
                m.pieces.take(i),
            ).len(),
{
    lemma_shown_total_is_len(m.original, m.add, m.pieces);
    assert forall|i: int| 0 <= i <= m.pieces.len() implies #[trigger] offset_of(m.pieces, i)
        == shown_text(m.original, m.add, m.pieces.take(i)).len() by {
        lemma_shown_total_is_len(m.original, m.add, m.pieces.take(i));
    }
}

/// A table shows what the entries before `i` show, then what entry `i`
/// shows, then what the entries after it show.
pub proof fn lemma_shown_around(
    original: Seq<u8>,
    add: Seq<u8>,
    pieces: Seq<TableEntry>,
    i: int,
)
    requires
        0 <= i < pieces.len(),
    ensures
        shown_text(original, add, pieces) == shown_text(original, add, pieces.take(i))
            + pieces[i].shown(original, add) + shown_text(original, add, pieces.skip(i + 1)),
{
    lemma_shown_split(original, add, pieces, i);
    let rest = pieces.skip(i);
    lemma_shown_split(original, add, rest, 1);
    assert(rest.take(1) =~= seq![pieces[i]]);
    assert(rest.skip(1) =~= pieces.skip(i + 1));
    lemma_shown_single(original, add, pieces[i]);
}

/// Every byte of the document is held by an entry.
pub proof fn lemma_holder_exists(m: TableModel, pos: int)
    requires
        all_fit(m.pieces, m.original.len() as int, m.add.len() as int),
        0 <= pos < m.len(),
    ensures
        m.holds(m.holder(pos), pos),
{
    assert(m.pieces.take(m.pieces.len() as int) =~= m.pieces);
    lemma_holder_search(m, pos, m.pieces.len() as int);
}

/// A byte of the document that lies before entry `upto` is held by an
/// entry.
proof fn lemma_holder_search(m: TableModel, pos: int, upto: int)
    requires
        all_fit(m.pieces, m.original.len() as int, m.add.len() as int),
        0 <= upto <= m.pieces.len(),
        0 <= pos < offset_of(m.pieces, upto),
    ensures
        m.holds(m.holder(pos), pos),
    decreases upto,
{
    if upto == 0 {
        assert(m.pieces.take(0) =~= Seq::<TableEntry>::empty());
    } else {
        lemma_offset_step(m.pieces, upto - 1);
        assert(m.pieces[upto - 1].fits_in(m.original.len() as int, m.add.len() as int));
        if pos < offset_of(m.pieces, upto - 1) {
            lemma_holder_search(m, pos, upto - 1);
        } else {
            assert(m.holds(upto - 1, pos));
        }
    }
}

/// The state in which an insertion places its entry shows the same
/// document and has the same versions up to the current one.
pub proof fn lemma_ready_for(m: TableModel, text: Seq<u8>)
    requires
        m.structure(),
    ensures
        m.ready_for(text).structure(),
        m.ready_for(text).doc() == m.doc(),
        m.ready_for(text).len() == m.len(),
        m.ready_for(text).history.len() == m.cursor,
        forall|k: int|
            0 <= k <= m.cursor ==> #[trigger] m.ready_for(text).version(k) == m.version(k),
{
    let g = m.ready_for(text);
    lemma_pruned(m);
    lemma_add_grown(m.pruned(), text);
    lemma_current_version(m);
    lemma_current_version(g);
    assert(g.version(m.cursor) == m.pruned().version(m.cursor));
    assert forall|k: int| 0 <= k <= m.cursor implies #[trigger] g.version(k) == m.version(k) by {
        assert(g.version(k) == m.pruned().version(k));
    }
}

/// An entry put in whole is shown between what the entries before
/// `index` show and what the others show; the earlier versions of the
/// document stay what they were.
pub proof fn lemma_put_whole(m: TableModel, index: int, fresh: TableEntry)
    requires
        m.structure(),
        0 <= index <= m.pieces.len() < usize::MAX,
        fresh.active,
        fresh.fits_in(m.original.len() as int, m.add.len() as int),
    ensures
        m.put_whole(index, fresh).structure(),
        m.put_whole(index, fresh).cursor == m.cursor + 1,
        m.put_whole(index, fresh).history.len() == m.cursor + 1,
        m.put_whole(index, fresh).original == m.original,
        m.put_whole(index, fresh).add == m.add,
        m.put_whole(index, fresh).pieces == m.pieces.insert(index, fresh),
        m.put_whole(index, fresh).doc() == shown_text(m.original, m.add, m.pieces.take(index))
            + fresh.bytes(m.original, m.add) + shown_text(m.original, m.add, m.pieces.skip(index)),
        forall|k: int|
            0 <= k <= m.cursor ==> #[trigger] m.put_whole(index, fresh).version(k) == m.version(k),
{
    let action = seq![index as usize];
    let staged = m.with_piece(index, fresh.hidden());
    let r = staged.commit(action);
    lemma_with_hidden_piece(m, index, fresh.hidden());
    assert(action[0] == index as usize);
    assert(toggled(staged.pieces, action) =~= m.pieces.insert(index, fresh));
    lemma_shown_with_piece(m.original, m.add, m.pieces, index, fresh);
    assert(action_ok(action, staged.pieces.len() as int));
    lemma_switched_recorded(staged, action);
    assert forall|k: int| 0 <= k <= m.cursor implies #[trigger] r.version(k) == m.version(k) by {
        assert(staged.version(k) == m.version(k));
    }
}

/// An entry put into a cut is shown between the two parts of what the
/// cut entry showed; the earlier versions of the document stay what they
/// were.
pub proof fn lemma_put_cut(m: TableModel, i: int, cut: int, fresh: TableEntry)
    requires
        m.structure(),
        0 <= i < m.pieces.len(),
        m.pieces.len() + 3 <= usize::MAX,
        m.pieces[i].active,
        0 < cut < m.pieces[i].len(),
        fresh.active,
        fresh.fits_in(m.original.len() as int, m.add.len() as int),
    ensures
        m.put_cut(i, cut, fresh).structure(),
        m.put_cut(i, cut, fresh).cursor == m.cursor + 1,
        m.put_cut(i, cut, fresh).history.len() == m.cursor + 1,
        m.put_cut(i, cut, fresh).original == m.original,
        m.put_cut(i, cut, fresh).add == m.add,
        m.put_cut(i, cut, fresh).doc() == shown_text(m.original, m.add, m.pieces.take(i))
            + m.pieces[i].bytes(m.original, m.add).subrange(0, cut) + fresh.bytes(m.original, m.add)
            + m.pieces[i].bytes(m.original, m.add).subrange(cut, m.pieces[i].len()) + shown_text(
            m.original,
            m.add,
            m.pieces.skip(i + 1),
        ),
        forall|k: int|
            0 <= k <= m.cursor ==> #[trigger] m.put_cut(i, cut, fresh).version(k) == m.version(k),
{
    let p = m.pieces[i];
    let left = TableEntry { end_index: (p.start_index + cut) as usize, ..p };
    let right = TableEntry { start_index: (p.start_index + cut) as usize, ..p };
    let action = seq![i as usize, (i + 1) as usize, (i + 2) as usize, (i + 3) as usize];
    let w1 = m.with_piece(i, right.hidden());
    let w2 = w1.with_piece(i, fresh.hidden());
    let staged = w2.with_piece(i, left.hidden());
    let r = staged.commit(action);
    assert(p.fits_in(m.original.len() as int, m.add.len() as int));
    lemma_with_hidden_piece(m, i, right.hidden());
    lemma_with_hidden_piece(w1, i, fresh.hidden());
    lemma_with_hidden_piece(w2, i, left.hidden());
    assert forall|k: int| 0 <= k <= m.cursor implies #[trigger] staged.version(k) == m.version(
        k,
    ) by {
        assert(w2.version(k) == w1.version(k));
        assert(w1.version(k) == m.version(k));
    }
    assert(action[0] == i as usize && action[1] == (i + 1) as usize && action[2] == (i + 2) as usize
        && action[3] == (i + 3) as usize);
    assert(action_ok(action, staged.pieces.len() as int));
    lemma_switched_recorded(staged, action);
    assert forall|k: int| 0 <= k <= m.cursor implies #[trigger] r.version(k) == m.version(k) by {
        assert(staged.version(k) == m.version(k));
    }
    let middle = seq![left, fresh, right, p.hidden()];
    lemma_cut_pieces(m.pieces, i, left, fresh, right, action);
    assert(r.pieces == (m.pieces.take(i) + middle) + m.pieces.skip(i + 1));
    lemma_shown_text_concat(m.original, m.add, m.pieces.take(i) + middle, m.pieces.skip(i + 1));
    lemma_shown_text_concat(m.original, m.add, m.pieces.take(i), middle);
    lemma_shown_four(m.original, m.add, left, fresh, right, p.hidden());
    assert(left.shown(m.original, m.add) =~= p.bytes(m.original, m.add).subrange(0, cut));
    assert(right.shown(m.original, m.add) =~= p.bytes(m.original, m.add).subrange(cut, p.len()));
    assert(p.hidden().shown(m.original, m.add) =~= Seq::<u8>::empty());
    assert(r.doc() =~= shown_text(m.original, m.add, m.pieces.take(i)) + p.bytes(
        m.original,
        m.add,
    ).subrange(0, cut) + fresh.bytes(m.original, m.add) + p.bytes(m.original, m.add).subrange(
        cut,
        p.len(),
    ) + shown_text(m.original, m.add, m.pieces.skip(i + 1)));
}

/// The table after the three parts were staged before entry `i` and the
/// action was applied.
proof fn lemma_cut_pieces(
    pieces: Seq<TableEntry>,
    i: int,
    left: TableEntry,
    fresh: TableEntry,
    right: TableEntry,
    action: Seq<usize>,
)
    requires
        0 <= i < pieces.len(),
        pieces.len() + 3 <= usize::MAX,
        pieces[i].active,
        left.active,
        fresh.active,
        right.active,
        action == seq![i as usize, (i + 1) as usize, (i + 2) as usize, (i + 3) as usize],
    ensures
        toggled(
            pieces.insert(i, right.hidden()).insert(i, fresh.hidden()).insert(i, left.hidden()),
            action,
        ) == (pieces.take(i) + seq![left, fresh, right, pieces[i].hidden()]) + pieces.skip(i + 1),
{
    let staged = pieces.insert(i, right.hidden()).insert(i, fresh.hidden()).insert(
        i,
        left.hidden(),
    );
    let want = (pieces.take(i) + seq![left, fresh, right, pieces[i].hidden()]) + pieces.skip(i + 1);
    let got = toggled(staged, action);
    assert(action[0] == i as usize && action[1] == (i + 1) as usize && action[2] == (i + 2) as usize
        && action[3] == (i + 3) as usize);
    assert forall|j: int| 0 <= j < got.len() implies got[j] == want[j] by {
        if i <= j <= i + 3 {
            assert(action[j - i] == j);
            assert(names(action, j));
        } else {
            assert(!names(action, j));
        }
    }
    assert(got =~= want);
}

/// What a table of four entries shows.
proof fn lemma_shown_four(
    original: Seq<u8>,
    add: Seq<u8>,
    a: TableEntry,
    b: TableEntry,
    c: TableEntry,
    d: TableEntry,
)
    ensures
        shown_text(original, add, seq![a, b, c, d]) == a.shown(original, add) + b.shown(
            original,
            add,
        ) + c.shown(original, add) + d.shown(original, add),
{
    assert(seq![a, b, c, d] =~= ((seq![a] + seq![b]) + seq![c]) + seq![d]);
    lemma_shown_text_concat(original, add, (seq![a] + seq![b]) + seq![c], seq![d]);
    lemma_shown_text_concat(original, add, seq![a] + seq![b], seq![c]);
    lemma_shown_text_concat(original, add, seq![a], seq![b]);
    lemma_shown_single(original, add, a);
    lemma_shown_single(original, add, b);
    lemma_shown_single(original, add, c);
    lemma_shown_single(original, add, d);
}

/// An entry placed at the document's byte `at` is shown there; the
/// placing is the action that undo takes back next and nothing is left
/// to redo, and every earlier version of the document stays what it was.
pub proof fn lemma_place(m: TableModel, fresh: TableEntry, at: int)
    requires
        m.structure(),
        0 <= at <= m.len(),
        m.place(fresh, at).pieces.len() <= usize::MAX,
        fresh.active,
        fresh.fits_in(m.original.len() as int, m.add.len() as int),
    ensures
        m.place(fresh, at).structure(),
        m.place(fresh, at).doc() == m.doc().subrange(0, at) + fresh.bytes(m.original, m.add)
            + m.doc().subrange(at, m.doc().len() as int),
        m.place(fresh, at).original == m.original,
        m.place(fresh, at).add == m.add,
        m.place(fresh, at).cursor == m.cursor + 1,
        m.place(fresh, at).history.len() == m.cursor + 1,
        forall|k: int|
            0 <= k <= m.cursor ==> #[trigger] m.place(fresh, at).version(k) == m.version(k),
{
    let r = m.place(fresh, at);
    let doc = m.doc();
    let n = m.pieces.len() as int;
    let text = fresh.bytes(m.original, m.add);
    lemma_doc_len(m);
    if at <= 0 {
        lemma_put_whole(m, 0, fresh);
        assert(m.pieces.take(0) =~= Seq::<TableEntry>::empty());
        assert(m.pieces.skip(0) =~= m.pieces);
        assert(r.doc() =~= doc.subrange(0, at) + text + doc.subrange(at, doc.len() as int));
    } else if at >= m.len() {
        lemma_put_whole(m, n, fresh);
        assert(m.pieces.skip(n) =~= Seq::<TableEntry>::empty());
        assert(m.pieces.take(n) =~= m.pieces);
        assert(r.doc() =~= doc.subrange(0, at) + text + doc.subrange(at, doc.len() as int));
    } else {
        lemma_holder_exists(m, at);
        let i = m.holder(at);
        let p = m.pieces[i];
        let cut = at - offset_of(m.pieces, i);
        lemma_shown_around(m.original, m.add, m.pieces, i);
        let before = shown_text(m.original, m.add, m.pieces.take(i));
        let after = shown_text(m.original, m.add, m.pieces.skip(i + 1));
        assert(before.len() == offset_of(m.pieces, i));
        assert(p.fits_in(m.original.len() as int, m.add.len() as int));
        assert(doc == before + p.bytes(m.original, m.add) + after);
        if cut == 0 {
            lemma_put_whole(m, i, fresh);
            lemma_shown_split(m.original, m.add, m.pieces, i);
            assert(r.doc() =~= doc.subrange(0, at) + text + doc.subrange(at, doc.len() as int));
        } else {
            assert(r.pieces.len() == n + 3);
            lemma_put_cut(m, i, cut, fresh);
            assert(r.doc() =~= doc.subrange(0, at) + text + doc.subrange(at, doc.len() as int));
        }
    }
}

/// What an insertion does: the document gets `text` before its byte
/// `at`, the insertion is the action that undo takes back next and
/// nothing is left to redo, and every earlier version of the document
/// stays what it was.
pub proof fn lemma_insert(m: TableModel, text: Seq<u8>, at: int)
    requires
        m.structure(),
        0 <= at <= m.len(),
        m.add.len() + text.len() <= usize::MAX,
        m.insert(text, at).pieces.len() <= usize::MAX,
    ensures
        m.insert(text, at).structure(),
        m.insert(text, at).doc() == m.doc().subrange(0, at) + text + m.doc().subrange(
            at,
            m.doc().len() as int,
        ),
        m.insert(text, at).original == m.original,
        m.insert(text, at).add == m.add + text,
        m.insert(text, at).cursor == m.cursor + 1,
        m.insert(text, at).history.len() == m.cursor + 1,
        forall|k: int|
            0 <= k <= m.cursor ==> #[trigger] m.insert(text, at).version(k) == m.version(k),
{
    let g = m.ready_for(text);
    let fresh = m.fresh_entry(text);
    lemma_ready_for(m, text);
    assert(fresh.bytes(g.original, g.add) =~= text);
    lemma_place(g, fresh, at);
    assert forall|k: int| 0 <= k <= m.cursor implies #[trigger] m.insert(text, at).version(k)
        == m.version(k) by {
        assert(g.version(k) == m.version(k));
    }
}

/// An insertion keeps a state well formed, where the buffers stay
/// countable.
pub proof fn lemma_insert_wf(m: TableModel, text: Seq<u8>, at: int)
    requires
        m.wf(),
        0 <= at <= m.len(),
        m.original.len() + m.add.len() + text.len() <= usize::MAX,
        m.insert(text, at).pieces.len() <= usize::MAX,
    ensures
        m.insert(text, at).wf(),
{
    let r = m.insert(text, at);
    lemma_insert(m, text, at);
    lemma_current_version(r);
    lemma_current_version(m);
    assert forall|k: int| 0 <= k <= r.history.len() implies (#[trigger] r.version(k)).len()
        <= r.original.len() + r.add.len() by {
        if k <= m.cursor {
            assert(r.version(k) == m.version(k));
            assert(m.version(k).len() <= m.original.len() + m.add.len());
        } else {
            assert(m.version(m.cursor).len() <= m.original.len() + m.add.len());
            lemma_doc_len(m);
            assert(k == r.cursor);
            assert(r.version(k) == r.doc());
            assert(r.doc().len() == m.doc().len() + text.len());
        }
    }
}

} // verus!

//! What holds of the motions and edits on an [`EditorModel`]: each of
//! them leads from a well-formed state to a well-formed state, so that
//! the line index always is that of the document and the cursor's
//! document offset always is that of its row and column.

use vstd::prelude::*;
use crate::lines::{
    NEWLINE, is_line_index, joined, lemma_line_end, lemma_line_lengths_concat,
    lemma_line_lengths_cut, lemma_line_lengths_shape, lemma_line_start_concat,
    lemma_line_start_monotone, lemma_line_start_not_negative, lemma_line_start_prefix,
    lemma_one_ended_line, lemma_one_line, line_end, line_lengths, line_start,
};
use crate::editor_model::{EditorModel, least};
use crate::edit_laws::lemma_doc_len;

verus! {

/// In a well-formed state the line index has a row and no negative
/// length, every position of the window has an offset inside the
/// document, and the document is as long as its rows, the newlines
/// between them and, where the last row has one, its newline.
pub proof fn lemma_wf_lines(m: EditorModel)
    requires
        m.wf(),
    ensures
        is_line_index(m.lines),
        is_line_index(m.full_lines()),
        m.table.doc().len() == line_start(m.lines, m.lines.len() as int) - 1 + (if m.terminated {
            1int
        } else {
            0int
        }),
        m.table.doc().len() == m.table.len(),
        m.table.doc().len() <= m.table.original.len() + m.table.add.len(),
        m.table.doc().len() + m.pending.len() < usize::MAX - 1,
        m.lines.len() < usize::MAX,
        forall|r: int, c: int|
            m.has_position(r, c) ==> 0 <= #[trigger] m.offset(r, c) <= line_start(
                m.lines,
                m.lines.len() as int,
            ) - 1,
        forall|i: int| 0 <= i < m.lines.len() ==> #[trigger] m.lines[i] <= m.table.doc().len(),
        m.lines.len() <= m.table.doc().len() + 1,
{
    let doc = m.table.doc();
    let full = m.full_lines();
    let n = m.lines.len() as int;
    lemma_line_lengths_shape(doc);
    lemma_doc_len(m.table);
    assert forall|i: int| 0 <= i < m.lines.len() implies #[trigger] m.lines[i] >= 0 by {
        assert(full[i] == m.lines[i]);
    }
    if m.terminated {
        lemma_line_start_prefix(full, m.lines, n);
        assert(line_start(full, n + 1) == line_start(full, n) + full[n] + 1);
    }
    crate::edit_laws::lemma_current_version(m.table);
    assert(m.table.version(m.table.cursor).len() <= m.table.original.len() + m.table.add.len());
    assert forall|r: int, c: int| m.has_position(r, c) implies 0 <= #[trigger] m.offset(r, c)
        <= line_start(m.lines, n) - 1 by {
        lemma_line_start_monotone(m.lines, r - 1, n);
    }
    lemma_line_start_monotone(m.lines, 0, n);
    assert forall|i: int| 0 <= i < m.lines.len() implies #[trigger] m.lines[i]
        <= m.table.doc().len() by {
        lemma_line_start_monotone(m.lines, i, n);
        lemma_line_start_not_negative(m.lines, i);
    }
}

/// The line index and the document's length agree: the rows, with a
/// newline behind each but the last, are the whole document, but for the
/// newline of the last row where that row has one.
pub proof fn lemma_line_index_sums_to_text_len(m: EditorModel)
    requires
        m.wf(),
    ensures
        !m.terminated ==> line_start(m.lines, m.lines.len() - 1) + m.lines.last() == m.table.len(),
        m.terminated ==> line_start(m.lines, m.lines.len() - 1) + m.lines.last() + 1
            == m.table.len(),
{
    lemma_wf_lines(m);
    let n = m.lines.len() as int;
    assert(line_start(m.lines, n) == line_start(m.lines, n - 1) + m.lines[n - 1] + 1);
}

/// The cursor's document offset is that of its row and column: the rows
/// above it with their newlines, and the columns before it.
pub proof fn lemma_byte_index_is_row_col(m: EditorModel)
    requires
        m.wf(),
    ensures
        m.byte_index == line_start(m.lines, m.row - 1) + (m.col - 1),
        0 <= m.byte_index <= m.table.len(),
{
    lemma_wf_lines(m);
    assert(m.has_position(m.row, m.col));
    assert(m.byte_index == m.offset(m.row, m.col));
}

/// Every row of the window is a line of the document: it lies inside
/// the document, none of its bytes is a newline, and behind it stands a
/// newline or the end of the document.
pub proof fn lemma_rows_are_lines(m: EditorModel, r: int)
    requires
        m.wf(),
        1 <= r <= m.lines.len(),
    ensures
        0 <= m.offset(r, 1),
        m.offset(r, 1) + m.lines[r - 1] <= m.table.doc().len(),
        forall|p: int|
            m.offset(r, 1) <= p < m.offset(r, 1) + m.lines[r - 1] ==> #[trigger] m.table.doc()[p]
                != NEWLINE,
        m.offset(r, 1) + m.lines[r - 1] < m.table.doc().len() ==> m.table.doc()[m.offset(r, 1)
            + m.lines[r - 1]] == NEWLINE,
{
    let doc = m.table.doc();
    let full = m.full_lines();
    let start = m.offset(r, 1);
    let end = start + m.lines[r - 1];
    lemma_wf_lines(m);
    lemma_line_lengths_shape(doc);
    crate::lines::lemma_newlines_end_lines(doc);
    assert(m.has_position(r, m.lines[r - 1] + 1));
    assert(m.offset(r, m.lines[r - 1] + 1) == end);
    assert(m.has_position(r, 1));
    assert forall|i: int| 0 <= i <= m.lines.len() implies line_start(full, i) == line_start(
        m.lines,
        i,
    ) by {
        lemma_line_start_prefix(full, m.lines, i);
    }
    assert(full[r - 1] == m.lines[r - 1]);
    assert(line_start(full, r) == line_start(full, r - 1) + full[r - 1] + 1);
    assert forall|p: int| start <= p < end implies #[trigger] doc[p] != NEWLINE by {
        if doc[p] == NEWLINE {
            assert(crate::lines::ends_line(full, p));
            let i = choose|i: int|
                0 <= i < full.len() - 1 && p == #[trigger] line_start(full, i + 1) - 1;
            if i + 1 <= r - 1 {
                lemma_line_start_monotone(full, i + 1, r - 1);
            } else {
                lemma_line_start_monotone(full, r, i + 1);
            }
        }
    }
    if end < doc.len() {
        assert(r < full.len());
        assert(end == line_start(full, (r - 1) + 1) - 1);
        assert(crate::lines::ends_line(full, end));
    }
}

/// A vertical motion to a row of the window keeps the state well formed.
pub proof fn lemma_at_row(m: EditorModel, row: int)
    requires
        m.wf(),
        1 <= row <= m.lines.len(),
    ensures
        m.at_row(row).wf(),
{
    lemma_wf_lines(m);
}

/// A horizontal motion to a column of the row keeps the state well
/// formed.
pub proof fn lemma_at_col(m: EditorModel, col: int)
    requires
        m.wf(),
        m.has_position(m.row, col),
    ensures
        m.at_col(col).wf(),
{
}

/// Lines before a line index that is put together with another stay
/// where they are.
pub proof fn lemma_joined_behind(before: Seq<int>, first: Seq<int>, second: Seq<int>)
    requires
        first.len() >= 1,
        second.len() >= 1,
    ensures
        joined(before + first, second) == before + joined(first, second),
{
    assert(joined(before + first, second) =~= before + joined(first, second));
}

/// Lines behind a line index that is put together with another stay
/// where they are.
pub proof fn lemma_joined_before(first: Seq<int>, second: Seq<int>, behind: Seq<int>)
    requires
        first.len() >= 1,
        second.len() >= 1,
    ensures
        joined(first, second + behind) == joined(first, second) + behind,
{
    assert(joined(first, second + behind) =~= joined(first, second) + behind);
}

/// What reading one line of the file does: the line is at the end of
/// the document and no longer in what is left of the file, and the state
/// stays well formed.
pub proof fn lemma_load_one(m: EditorModel)
    requires
        m.wf(),
        m.pending.len() > 0,
        m.table.pieces.len() < usize::MAX,
    ensures
        m.load_one().wf(),
        m.load_one().table.doc() == m.table.doc() + m.next_line(),
        m.next_line() + m.load_one().pending == m.pending,
        1 <= m.next_line().len() <= m.pending.len(),
        m.load_one().row == m.row,
        m.load_one().col == m.col,
        m.load_one().lines.len() >= m.lines.len(),
{
    let r = m.load_one();
    let line = m.next_line();
    let n = line.len() as int;
    let doc = m.table.doc();
    lemma_wf_lines(m);
    lemma_line_end(m.pending, 0);
    assert(n == line_end(m.pending, 0));
    crate::history_laws::lemma_append_original(m.table, line);
    let ended = line.last() == NEWLINE;
    if ended {
        lemma_one_ended_line(line);
    } else {
        assert forall|i: int| 0 <= i < line.len() implies line[i] != NEWLINE by {
            assert(line[i] == m.pending[i]);
        }
        lemma_one_line(line);
    }
    lemma_line_lengths_concat(doc, line);
    assert(line_lengths(r.table.doc()) =~= r.full_lines());
    lemma_line_start_prefix(r.lines, m.lines, m.row - 1);
    assert(r.table.original.len() == m.table.original.len() + n);
    assert(line + r.pending =~= m.pending);
}

/// What reading lines of the file does: what is read is at the end of
/// the document and no longer in what is left of the file, and the state
/// stays well formed.
pub proof fn lemma_load(m: EditorModel, n: int)
    requires
        m.wf(),
        m.load(n).table.pieces.len() <= usize::MAX,
    ensures
        m.load(n).wf(),
        m.load(n).table.doc() + m.load(n).pending == m.table.doc() + m.pending,
        m.load(n).table.pieces.len() >= m.table.pieces.len(),
    decreases n,
{
    lemma_load_grows(m, n);
    if n > 0 && !m.eof && m.pending.len() > 0 {
        let one = m.load_one();
        lemma_load_grows(one, n - 1);
        lemma_load_one(m);
        lemma_load(one, n - 1);
        assert(m.table.doc() + m.pending =~= one.table.doc() + one.pending);
    }
}

/// Reading lines of the file takes no entry from the piece table.
proof fn lemma_load_grows(m: EditorModel, n: int)
    ensures
        m.load(n).table.pieces.len() >= m.table.pieces.len(),
    decreases n,
{
    if n > 0 && !m.eof && m.pending.len() > 0 {
        lemma_load_grows(m.load_one(), n - 1);
    }
}

/// The line index after an insertion has one row more for every newline
/// of the text, and the row in which the text ends begins where its
/// last line begins.
pub proof fn lemma_lines_with(lines: Seq<int>, r: int, c: int, text: Seq<u8>)
    requires
        is_line_index(lines),
        0 <= r < lines.len(),
        0 <= c <= lines[r],
    ensures
        ({
            let t = line_lengths(text);
            let after = EditorModel::lines_with(lines, r, c, t);
            &&& is_line_index(after)
            &&& after.len() == lines.len() + t.len() - 1
            &&& after[r + t.len() - 1] == (if t.len() == 1 {
                c + text.len() + (lines[r] - c)
            } else {
                t.last() + (lines[r] - c)
            })
            &&& line_start(after, r + t.len() - 1) + (if t.len() == 1 {
                c + text.len()
            } else {
                t.last()
            }) == line_start(lines, r) + c + text.len()
        }),
{
    let t = line_lengths(text);
    let k = t.len() as int;
    let rest = lines[r] - c;
    let middle = joined(joined(seq![c], t), seq![rest]);
    let after = EditorModel::lines_with(lines, r, c, t);
    lemma_line_lengths_shape(text);
    assert(middle.len() == k);
    assert forall|i: int| 0 <= i < after.len() implies #[trigger] after[i] >= 0 by {
        if i < r {
            assert(after[i] == lines[i]);
        } else if i < r + k {
            let j = i - r;
            if 0 < j < k - 1 {
                assert(middle[j] == t[j]);
            }
            assert(t[j] >= 0);
        } else {
            assert(after[i] == lines[i - k + 1]);
        }
    }
    // the rows before the last row of the text
    assert(after =~= lines.take(r) + (middle + lines.skip(r + 1)));
    lemma_line_start_concat(lines.take(r), middle + lines.skip(r + 1), k - 1);
    lemma_line_start_prefix(lines.take(r), lines, r);
    lemma_line_start_prefix(middle + lines.skip(r + 1), middle, k - 1);
    lemma_middle_start(c, t, rest, k - 1);
    assert(line_start(t, k) == line_start(t, k - 1) + t[k - 1] + 1);
}

/// Inside a text that was inserted behind `c` bytes of a row, a line
/// begins `c` bytes later than it does in the text alone.
proof fn lemma_middle_start(c: int, t: Seq<int>, rest: int, j: int)
    requires
        t.len() >= 1,
        0 <= j <= t.len() - 1,
    ensures
        line_start(joined(joined(seq![c], t), seq![rest]), j) == (if j == 0 {
            0
        } else {
            c + line_start(t, j)
        }),
    decreases j,
{
    let middle = joined(joined(seq![c], t), seq![rest]);
    if j > 0 {
        lemma_middle_start(c, t, rest, j - 1);
        if j == 1 {
            assert(middle[0] == c + t[0]);
            assert(line_start(t, 1) == line_start(t, 0) + t[0] + 1);
        } else {
            assert(middle[j - 1] == t[j - 1]);
        }
    }
}

/// What typing text does: the document gets the text at the cursor's
/// offset, and the state stays well formed.
pub proof fn lemma_add_text(m: EditorModel, text: Seq<u8>)
    requires
        m.wf(),
        text.len() <= m.room(),
        m.add_text(text).table.pieces.len() <= usize::MAX,
    ensures
        m.add_text(text).wf(),
        m.add_text(text).table.doc() == m.table.doc().subrange(0, m.byte_index) + text
            + m.table.doc().subrange(m.byte_index, m.table.doc().len() as int),
{
    let after = m.add_text(text);
    let doc = m.table.doc();
    let full = m.full_lines();
    let r = m.row - 1;
    let c = m.col - 1;
    let t = line_lengths(text);
    let rest = m.lines[r] - c;
    lemma_wf_lines(m);
    assert(m.has_position(m.row, m.col));
    assert(0 <= m.offset(m.row, m.col) <= m.table.doc().len());
    crate::edit_laws::lemma_insert(m.table, text, m.byte_index);
    crate::edit_laws::lemma_insert_wf(m.table, text, m.byte_index);
    lemma_line_lengths_shape(text);
    lemma_line_start_prefix(full, m.lines, r);
    assert(full[r] == m.lines[r]);
    lemma_line_lengths_cut(doc, r, c);
    let a = doc.take(m.byte_index);
    let b = doc.skip(m.byte_index);
    assert(doc.subrange(0, m.byte_index) =~= a);
    assert(doc.subrange(m.byte_index, doc.len() as int) =~= b);
    lemma_line_lengths_concat(a + text, b);
    lemma_line_lengths_concat(a, text);
    let la = full.take(r);
    let lb = full.skip(r + 1);
    assert(line_lengths(a) == la + seq![c]) by {
        assert(la.push(c) =~= la + seq![c]);
    }
    lemma_joined_behind(la, seq![c], t);
    lemma_joined_behind(la, joined(seq![c], t), seq![rest] + lb);
    lemma_joined_before(joined(seq![c], t), seq![rest], lb);
    assert(line_lengths(after.table.doc()) == la + joined(joined(seq![c], t), seq![rest]) + lb);
    assert(la =~= m.lines.take(r));
    if m.terminated {
        assert(lb =~= m.lines.skip(r + 1).push(0));
    } else {
        assert(lb =~= m.lines.skip(r + 1));
    }
    assert(line_lengths(after.table.doc()) =~= after.full_lines());
    lemma_lines_with(m.lines, r, c, text);
}

/// What deleting the text between two positions of the window does:
/// the document loses the bytes between their offsets, and the state
/// stays well formed.
pub proof fn lemma_without(m: EditorModel, r1: int, c1: int, r2: int, c2: int)
    requires
        m.wf(),
        m.has_position(r1, c1),
        m.has_position(r2, c2),
        EditorModel::comes_before(r1, c1, r2, c2),
        m.without(r1, c1, r2, c2).table.pieces.len() <= usize::MAX,
    ensures
        m.without(r1, c1, r2, c2).wf(),
        (EditorModel { col_want: c1, ..m.without(r1, c1, r2, c2) }).wf(),
        m.without(r1, c1, r2, c2).table.doc() == m.table.doc().subrange(0, m.offset(r1, c1))
            + m.table.doc().subrange(m.offset(r2, c2), m.table.doc().len() as int),
{
    let after = m.without(r1, c1, r2, c2);
    let doc = m.table.doc();
    let full = m.full_lines();
    lemma_wf_lines(m);
    lemma_positions_in_order(m, r1, c1, r2, c2);
    crate::delete_laws::lemma_delete(m.table, m.offset(r1, c1), m.offset(r2, c2));
    crate::delete_laws::lemma_delete_wf(m.table, m.offset(r1, c1), m.offset(r2, c2));
    lemma_line_start_prefix(full, m.lines, r1 - 1);
    lemma_line_start_prefix(full, m.lines, r2 - 1);
    assert(full[r1 - 1] == m.lines[r1 - 1]);
    assert(full[r2 - 1] == m.lines[r2 - 1]);
    lemma_line_lengths_cut(doc, r1 - 1, c1 - 1);
    lemma_line_lengths_cut(doc, r2 - 1, c2 - 1);
    let a = doc.take(m.offset(r1, c1));
    let b = doc.skip(m.offset(r2, c2));
    assert(doc.subrange(0, m.offset(r1, c1)) =~= a);
    assert(doc.subrange(m.offset(r2, c2), doc.len() as int) =~= b);
    lemma_line_lengths_concat(a, b);
    if m.terminated {
        assert(full.skip(r2) =~= m.lines.skip(r2).push(0));
    } else {
        assert(full.skip(r2) =~= m.lines.skip(r2));
    }
    assert(full.take(r1 - 1) =~= m.lines.take(r1 - 1));
    assert(line_lengths(after.table.doc()) =~= after.full_lines());
    lemma_line_start_prefix(after.lines, m.lines, r1 - 1);
}

/// A position that comes before another has the smaller document
/// offset.
pub proof fn lemma_positions_in_order(m: EditorModel, r1: int, c1: int, r2: int, c2: int)
    requires
        m.wf(),
        m.has_position(r1, c1),
        m.has_position(r2, c2),
        EditorModel::comes_before(r1, c1, r2, c2),
    ensures
        0 <= m.offset(r1, c1) < m.offset(r2, c2) <= m.table.len(),
{
    lemma_wf_lines(m);
    lemma_line_start_monotone(m.lines, r1 - 1, r2 - 1);
    assert(m.has_position(r2, c2));
    assert(m.offset(r2, c2) <= line_start(m.lines, m.lines.len() as int) - 1);
    assert(m.offset(r1, c1) >= 0);
}

/// What deleting the whole document does: the document is empty, and
/// the state stays well formed.
pub proof fn lemma_delete_all(m: EditorModel)
    requires
        m.wf(),
        m.delete_all().table.pieces.len() <= usize::MAX,
    ensures
        m.delete_all().wf(),
        m.delete_all().table.doc() == Seq::<u8>::empty(),
{
    let after = m.delete_all();
    lemma_wf_lines(m);
    if m.table.len() > 0 {
        crate::delete_laws::lemma_delete(m.table, 0, m.table.len());
        crate::delete_laws::lemma_delete_wf(m.table, 0, m.table.len());
        assert(after.table.doc() =~= Seq::<u8>::empty());
        assert(line_lengths(after.table.doc()) =~= seq![0int]);
        assert(line_start(after.lines, 0) == 0);
    } else {
        assert(m.table.doc() =~= Seq::<u8>::empty());
    }
}


/// Reading one line takes at least one byte from what is left of the
/// file.
pub proof fn lemma_next_line(m: EditorModel)
    requires
        m.pending.len() > 0,
    ensures
        1 <= m.next_line().len() <= m.pending.len(),
        m.load_one().pending.len() == m.pending.len() - m.next_line().len(),
        m.load_one().eof == m.eof,
{
    lemma_line_end(m.pending, 0);
}

/// Once more lines are asked for than the file has bytes left, asking
/// for still more reads the same: the whole file.
pub proof fn lemma_load_enough(m: EditorModel, a: int, b: int)
    requires
        a > m.pending.len(),
        b > m.pending.len(),
    ensures
        m.load(a) == m.load(b),
        m.load(a).eof,
        m.load(a).pending.len() == 0 || m.eof,
    decreases a,
{
    if !m.eof && m.pending.len() > 0 {
        lemma_next_line(m);
        lemma_load_enough(m.load_one(), a - 1, b - 1);
    }
}


/// Reading lines of the file moves no cursor, forgets no row and
/// records no action.
pub proof fn lemma_load_keeps_cursor(m: EditorModel, n: int)
    ensures
        m.load(n).row == m.row,
        m.load(n).col == m.col,
        m.load(n).col_want == m.col_want,
        m.load(n).byte_index == m.byte_index,
        m.load(n).lines.len() >= m.lines.len(),
        m.load(n).table.history == m.table.history,
        m.load(n).table.cursor == m.table.cursor,
    decreases n,
{
    if n > 0 && !m.eof && m.pending.len() > 0 {
        lemma_load_keeps_cursor(m.load_one(), n - 1);
    }
}

} // verus!

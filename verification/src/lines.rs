//! Lines of a text, counted in bytes.
//!
//! A text of `k` newline bytes has `k + 1` lines: the runs of bytes
//! between the newlines, the empty ones too. The line index of a text is
//! the sequence of the lengths of its lines, without their newlines.

use vstd::prelude::*;

verus! {

/// The byte that ends a line.
pub const NEWLINE: u8 = 10;

/// The lengths of the lines of `text`.
pub open spec fn line_lengths(text: Seq<u8>) -> Seq<int>
    decreases text.len(),
{
    if text.len() == 0 {
        seq![0int]
    } else if text.last() == NEWLINE {
        line_lengths(text.drop_last()).push(0)
    } else {
        let before = line_lengths(text.drop_last());
        before.update(before.len() - 1, before.last() + 1)
    }
}

/// The offset at which line `i` (counted from 0) of a text with the line
/// index `lines` begins: every line before it counts with its newline.
pub open spec fn line_start(lines: Seq<int>, i: int) -> int
    decreases i,
{
    if i <= 0 {
        0
    } else {
        line_start(lines, i - 1) + lines[i - 1] + 1
    }
}

/// The line index of two texts put together, from their line indices:
/// the last line of the first and the first line of the second become
/// one line.
pub open spec fn joined(first: Seq<int>, second: Seq<int>) -> Seq<int> {
    first.drop_last() + seq![first.last() + second.first()] + second.drop_first()
}

/// A sequence that can be the line index of a text: it has a line, and
/// no length is negative.
pub open spec fn is_line_index(lines: Seq<int>) -> bool {
    &&& lines.len() >= 1
    &&& forall|i: int| 0 <= i < lines.len() ==> #[trigger] lines[i] >= 0
}

/// Line starts read only the lines before.
pub proof fn lemma_line_start_prefix(a: Seq<int>, b: Seq<int>, i: int)
    requires
        0 <= i <= a.len(),
        i <= b.len(),
        forall|j: int| 0 <= j < i ==> a[j] == b[j],
    ensures
        line_start(a, i) == line_start(b, i),
    decreases i,
{
    if i > 0 {
        lemma_line_start_prefix(a, b, i - 1);
    }
}

/// In a line index put together from two, the lines of the second begin
/// behind the whole first.
pub proof fn lemma_line_start_concat(a: Seq<int>, b: Seq<int>, j: int)
    requires
        0 <= j <= b.len(),
    ensures
        line_start(a + b, a.len() + j) == line_start(a, a.len() as int) + line_start(b, j),
    decreases j,
{
    if j == 0 {
        lemma_line_start_prefix(a + b, a, a.len() as int);
    } else {
        lemma_line_start_concat(a, b, j - 1);
        assert((a + b)[a.len() + j - 1] == b[j - 1]);
    }
}

/// Lines begin one behind the other.
pub proof fn lemma_line_start_monotone(lines: Seq<int>, i: int, j: int)
    requires
        0 <= i <= j <= lines.len(),
        forall|t: int| 0 <= t < lines.len() ==> #[trigger] lines[t] >= 0,
    ensures
        line_start(lines, i) + (j - i) <= line_start(lines, j),
        i < j ==> line_start(lines, i) + lines[i] + 1 <= line_start(lines, j),
        line_start(lines, i) >= 0,
    decreases j - i,
{
    if i < j {
        lemma_line_start_monotone(lines, i, j - 1);
        assert(lines[j - 1] >= 0);
    } else {
        lemma_line_start_not_negative(lines, i);
    }
    lemma_line_start_not_negative(lines, i);
}

/// No line begins before the text.
pub proof fn lemma_line_start_not_negative(lines: Seq<int>, i: int)
    requires
        0 <= i <= lines.len(),
        forall|t: int| 0 <= t < lines.len() ==> #[trigger] lines[t] >= 0,
    ensures
        line_start(lines, i) >= 0,
    decreases i,
{
    if i > 0 {
        lemma_line_start_not_negative(lines, i - 1);
        assert(lines[i - 1] >= 0);
    }
}

/// An offset lies in one line only: a line and a column in it that give
/// the same offset are the same.
pub proof fn lemma_position_unique(lines: Seq<int>, r1: int, c1: int, r2: int, c2: int)
    requires
        forall|t: int| 0 <= t < lines.len() ==> #[trigger] lines[t] >= 0,
        0 <= r1 < lines.len(),
        0 <= r2 < lines.len(),
        0 <= c1 <= lines[r1],
        0 <= c2 <= lines[r2],
        line_start(lines, r1) + c1 == line_start(lines, r2) + c2,
    ensures
        r1 == r2,
        c1 == c2,
{
    if r1 < r2 {
        lemma_line_start_monotone(lines, r1, r2);
    } else if r2 < r1 {
        lemma_line_start_monotone(lines, r2, r1);
    }
}

/// The line index of a text is one, and the text is as long as its
/// lines and the newlines between them.
pub proof fn lemma_line_lengths_shape(text: Seq<u8>)
    ensures
        is_line_index(line_lengths(text)),
        line_start(line_lengths(text), line_lengths(text).len() as int) == text.len() + 1,
    decreases text.len(),
{
    let lines = line_lengths(text);
    if text.len() == 0 {
        assert(line_start(lines, 0) == 0);
        assert(line_start(lines, 1) == line_start(lines, 0) + lines[0] + 1);
    } else {
        let before = line_lengths(text.drop_last());
        lemma_line_lengths_shape(text.drop_last());
        let n = before.len() as int;
        if text.last() == NEWLINE {
            lemma_line_start_prefix(lines, before, n);
            assert(line_start(lines, n + 1) == line_start(lines, n) + lines[n] + 1);
        } else {
            lemma_line_start_prefix(lines, before, n - 1);
            assert(line_start(lines, n) == line_start(lines, n - 1) + lines[n - 1] + 1);
            assert(line_start(before, n) == line_start(before, n - 1) + before[n - 1] + 1);
        }
    }
}

/// The line index of two texts put together is put together from
/// theirs.
pub proof fn lemma_line_lengths_concat(x: Seq<u8>, y: Seq<u8>)
    ensures
        line_lengths(x + y) == joined(line_lengths(x), line_lengths(y)),
    decreases y.len(),
{
    let lx = line_lengths(x);
    let ly = line_lengths(y);
    lemma_line_lengths_shape(x);
    lemma_line_lengths_shape(y);
    if y.len() == 0 {
        assert(x + y =~= x);
        assert(joined(lx, ly) =~= lx);
    } else {
        let yb = y.drop_last();
        let lyb = line_lengths(yb);
        lemma_line_lengths_shape(yb);
        lemma_line_lengths_concat(x, yb);
        assert((x + y).drop_last() =~= x + yb);
        assert((x + y).last() == y.last());
        let j = joined(lx, lyb);
        if y.last() == NEWLINE {
            assert(line_lengths(x + y) == j.push(0));
            assert(j.push(0) =~= joined(lx, ly));
        } else {
            assert(line_lengths(x + y) == j.update(j.len() - 1, j.last() + 1));
            assert(j.update(j.len() - 1, j.last() + 1) =~= joined(lx, ly));
        }
    }
}

/// The byte at `pos` is where a line of the line index `lines` ends: the
/// next line begins right behind it.
pub open spec fn ends_line(lines: Seq<int>, pos: int) -> bool {
    exists|i: int| 0 <= i < lines.len() - 1 && pos == #[trigger] line_start(lines, i + 1) - 1
}

/// The newlines of a text are the bytes at which the lines of its line
/// index end.
pub proof fn lemma_newlines_end_lines(text: Seq<u8>)
    ensures
        forall|pos: int|
            0 <= pos < text.len() ==> (#[trigger] text[pos] == NEWLINE <==> ends_line(
                line_lengths(text),
                pos,
            )),
    decreases text.len(),
{
    let lines = line_lengths(text);
    if text.len() > 0 {
        let shorter = text.drop_last();
        let before = line_lengths(shorter);
        let n = before.len() as int;
        lemma_newlines_end_lines(shorter);
        lemma_line_lengths_shape(shorter);
        lemma_line_lengths_shape(text);
        assert forall|pos: int| 0 <= pos < text.len() implies (#[trigger] text[pos] == NEWLINE
            <==> ends_line(lines, pos)) by {
            assert forall|i: int| 0 <= i < n implies line_start(lines, i) == line_start(
                before,
                i,
            ) by {
                lemma_line_start_prefix(lines, before, i);
            }
            if pos < shorter.len() {
                assert(text[pos] == shorter[pos]);
                if ends_line(before, pos) {
                    let i = choose|i: int|
                        0 <= i < before.len() - 1 && pos == #[trigger] line_start(before, i + 1)
                            - 1;
                    assert(pos == line_start(lines, i + 1) - 1);
                }
                if ends_line(lines, pos) {
                    let i = choose|i: int|
                        0 <= i < lines.len() - 1 && pos == #[trigger] line_start(lines, i + 1) - 1;
                    if i + 1 < n {
                        assert(pos == line_start(before, i + 1) - 1);
                    } else {
                        lemma_line_start_prefix(lines, before, n);
                    }
                }
            } else {
                if text.last() == NEWLINE {
                    lemma_line_start_prefix(lines, before, n);
                    assert(pos == line_start(lines, (n - 1) + 1) - 1);
                } else if ends_line(lines, pos) {
                    let i = choose|i: int|
                        0 <= i < lines.len() - 1 && pos == #[trigger] line_start(lines, i + 1) - 1;
                    lemma_line_start_monotone(before, i + 1, n);
                }
            }
        }
    }
}

/// Cutting a text inside line `r`, after `c` bytes of it, cuts its line
/// index there: the part before has the lines before `r` and a line of
/// `c` bytes, the part behind has the rest of line `r` and the lines
/// behind it.
pub proof fn lemma_line_lengths_cut(text: Seq<u8>, r: int, c: int)
    requires
        0 <= r < line_lengths(text).len(),
        0 <= c <= line_lengths(text)[r],
    ensures
        0 <= line_start(line_lengths(text), r) + c <= text.len(),
        line_lengths(text.take(line_start(line_lengths(text), r) + c)) == line_lengths(text).take(
            r,
        ).push(c),
        line_lengths(text.skip(line_start(line_lengths(text), r) + c)) == seq![
            line_lengths(text)[r] - c,
        ] + line_lengths(text).skip(r + 1),
{
    let lines = line_lengths(text);
    let pos = line_start(lines, r) + c;
    lemma_line_lengths_shape(text);
    lemma_line_start_monotone(lines, r, lines.len() as int);
    lemma_line_start_not_negative(lines, r);
    let x = text.take(pos);
    let y = text.skip(pos);
    let lx = line_lengths(x);
    let ly = line_lengths(y);
    assert(text =~= x + y);
    lemma_line_lengths_concat(x, y);
    lemma_line_lengths_shape(x);
    lemma_line_lengths_shape(y);
    let r2 = lx.len() - 1;
    let c2 = lx.last();
    assert(lines == joined(lx, ly));
    assert(lines[r2] == lx.last() + ly.first());
    lemma_line_start_prefix(lines, lx, r2);
    assert(line_start(lx, r2 + 1) == line_start(lx, r2) + lx[r2] + 1);
    lemma_position_unique(lines, r, c, r2, c2);
    assert(lx =~= lines.take(r).push(c));
    assert(ly =~= seq![lines[r] - c] + lines.skip(r + 1));
}

/// The index behind the first line of `text` from `from` on: behind its
/// newline, or the end of the text where no newline follows.
pub open spec fn line_end(text: Seq<u8>, from: int) -> int
    decreases text.len() - from,
{
    if from >= text.len() {
        text.len() as int
    } else if text[from] == NEWLINE {
        from + 1
    } else {
        line_end(text, from + 1)
    }
}

/// A line that was cut off by [`line_end`] has no newline but, at most,
/// as its last byte.
pub proof fn lemma_line_end(text: Seq<u8>, from: int)
    requires
        0 <= from <= text.len(),
    ensures
        from <= line_end(text, from) <= text.len(),
        from < text.len() ==> from < line_end(text, from),
        forall|i: int| from <= i < line_end(text, from) - 1 ==> text[i] != NEWLINE,
        line_end(text, from) < text.len() ==> text[line_end(text, from) - 1] == NEWLINE,
    decreases text.len() - from,
{
    if from < text.len() && text[from] != NEWLINE {
        lemma_line_end(text, from + 1);
    }
}

/// A text without a newline is one line.
pub proof fn lemma_one_line(text: Seq<u8>)
    requires
        forall|i: int| 0 <= i < text.len() ==> text[i] != NEWLINE,
    ensures
        line_lengths(text) == seq![text.len() as int],
    decreases text.len(),
{
    if text.len() > 0 {
        lemma_one_line(text.drop_last());
        assert(line_lengths(text) =~= seq![text.len() as int]);
    }
}

/// A text whose only newline is its last byte is one line and an empty
/// line behind it.
pub proof fn lemma_one_ended_line(text: Seq<u8>)
    requires
        text.len() > 0,
        text.last() == NEWLINE,
        forall|i: int| 0 <= i < text.len() - 1 ==> text[i] != NEWLINE,
    ensures
        line_lengths(text) == seq![text.len() - 1, 0int],
{
    lemma_one_line(text.drop_last());
    assert(line_lengths(text) =~= seq![text.len() - 1, 0int]);
}

/// The byte that, before a newline, belongs to the line's ending.
pub const CARRIAGE_RETURN: u8 = 13;

/// A line without its ending: without its newline, and without the
/// carriage return before that newline where there is one. A line that
/// does not end with a newline is left as it is.
pub open spec fn without_line_ending(line: Seq<u8>) -> Seq<u8> {
    if line.len() > 0 && line.last() == NEWLINE {
        if line.len() > 1 && line[line.len() - 2] == CARRIAGE_RETURN {
            line.take(line.len() - 2)
        } else {
            line.take(line.len() - 1)
        }
    } else {
        line
    }
}

/// Line `index` (counted from 0) of `text`, without its ending, where
/// the lines are those that end with a newline and, where the text does
/// not end with one, the rest of the text; `None` where the text has
/// fewer lines.
pub open spec fn nth_line(text: Seq<u8>, index: nat) -> Option<Seq<u8>>
    decreases index,
{
    if text.len() == 0 {
        None
    } else if index == 0 {
        Some(without_line_ending(text.take(line_end(text, 0))))
    } else {
        nth_line(text.skip(line_end(text, 0)), (index - 1) as nat)
    }
}

/// The first line of a text from `from` on ends where the first line of
/// the rest of the text ends.
pub proof fn lemma_line_end_of_rest(text: Seq<u8>, from: int, at: int)
    requires
        0 <= from <= at <= text.len(),
        forall|i: int| from <= i < at ==> text[i] != NEWLINE,
    ensures
        line_end(text, from) == from + line_end(text.skip(from), at - from),
    decreases text.len() - at,
{
    let rest = text.skip(from);
    lemma_line_end_skips(text, from, at);
    lemma_line_end_skips(rest, 0, at - from);
    if at < text.len() {
        assert(rest[at - from] == text[at]);
        if text[at] != NEWLINE {
            lemma_line_end_of_rest(text, from, at + 1);
            lemma_line_end_skips(rest, 0, at + 1 - from);
        }
    }
}

/// The end of a line is found from any byte of it.
proof fn lemma_line_end_skips(text: Seq<u8>, from: int, at: int)
    requires
        0 <= from <= at <= text.len(),
        forall|i: int| from <= i < at ==> text[i] != NEWLINE,
    ensures
        line_end(text, from) == line_end(text, at),
    decreases at - from,
{
    if from < at {
        lemma_line_end_skips(text, from + 1, at);
    }
}

/// The lengths of the lines of `bytes`.
pub fn line_lengths_of(bytes: &[u8]) -> (lengths: Vec<usize>)
    ensures
        lengths@.len() == line_lengths(bytes@).len(),
        forall|i: int|
            0 <= i < lengths@.len() ==> #[trigger] lengths@[i] == line_lengths(bytes@)[i],
{
    let mut lengths: Vec<usize> = Vec::new();
    lengths.push(0);
    let mut i: usize = 0;
    proof {
        assert(bytes@.take(0) =~= Seq::<u8>::empty());
    }
    while i < bytes.len()
        invariant
            i <= bytes.len(),
            lengths@.len() == line_lengths(bytes@.take(i as int)).len(),
            forall|j: int|
                0 <= j < lengths@.len() ==> #[trigger] lengths@[j] == line_lengths(
                    bytes@.take(i as int),
                )[j],
        decreases bytes.len() - i,
    {
        proof {
            let now = bytes@.take(i + 1);
            assert(now.drop_last() =~= bytes@.take(i as int));
            assert(now.last() == bytes@[i as int]);
            lemma_line_lengths_shape(now);
            lemma_line_start_monotone(
                line_lengths(now),
                line_lengths(now).len() - 1,
                line_lengths(now).len() as int,
            );
            lemma_line_lengths_shape(bytes@.take(i as int));
        }
        if bytes[i] == NEWLINE {
            lengths.push(0);
        } else {
            let last: usize = lengths.len() - 1;
            let n: usize = lengths[last];
            lengths[last] = n + 1;
        }
        i = i + 1;
    }
    proof {
        assert(bytes@.take(bytes@.len() as int) =~= bytes@);
    }
    lengths
}

/// The index behind the first line of `bytes` from `from` on.
pub fn find_line_end(bytes: &[u8], from: usize) -> (end: usize)
    requires
        from <= bytes@.len(),
    ensures
        end == line_end(bytes@, from as int),
{
    let mut i: usize = from;
    while i < bytes.len()
        invariant
            from <= i <= bytes.len(),
            line_end(bytes@, from as int) == line_end(bytes@, i as int),
        decreases bytes.len() - i,
    {
        if bytes[i] == NEWLINE {
            return i + 1;
        }
        i = i + 1;
    }
    i
}

} // verus!

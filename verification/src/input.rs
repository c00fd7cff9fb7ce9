//! The box in which the text of a note is typed.

use crate::notes::{Position, SelKind};
use crate::text::{
    byte_len, byte_len_is_utf8_length, bytes_in, chars_of, lemma_byte_len_add, lemma_run_before,
    lemma_run_before_is, pieces, run_before, slices, split, string_of,
};
use vstd::prelude::*;
use vstd::slice::slice_subrange;

verus! {

/// A note comment being typed in (a new note, or an edit of an existing one).
#[derive(Debug)]
pub struct InputState {
    pub buffer: String,
    /// Insertion point, as a character index into `buffer`.
    pub cursor: usize,
    pub kind: SelKind,
    pub start: Position,
    pub end: Position,
    /// Id of the note being edited; `None` when composing a new one.
    pub editing: Option<u64>,
}

/// What a note that is being typed in says so far, and where.
#[verifier::ext_equal]
pub struct InputModel {
    pub buffer: Seq<char>,
    pub cursor: int,
    pub kind: SelKind,
    pub start: Position,
    pub end: Position,
    pub editing: Option<u64>,
}

impl View for InputState {
    type V = InputModel;

    open spec fn view(&self) -> InputModel {
        InputModel {
            buffer: self.buffer@,
            cursor: self.cursor as int,
            kind: self.kind,
            start: self.start,
            end: self.end,
            editing: self.editing,
        }
    }
}

/// The rows of the text in the box.
pub open spec fn rows(buffer: Seq<char>) -> Seq<Seq<char>> {
    pieces(buffer, '\n')
}

/// The index of the first character of row `line`.
pub open spec fn row_start(rows: Seq<Seq<char>>, line: int) -> int
    decreases line,
{
    if line <= 0 { 0 } else { row_start(rows, line - 1) + rows[line - 1].len() + 1 }
}

/// The index of column `col` of row `line`, or of the end of the row if it is
/// shorter; the end of the text if there is no such row.
pub open spec fn index_at(buffer: Seq<char>, line: int, col: int) -> int {
    let r = rows(buffer);
    if line < r.len() {
        row_start(r, line) + if col < r[line].len() { col } else { r[line].len() as int }
    } else {
        buffer.len() as int
    }
}

/// The row and the column of the character index `cursor`.
pub open spec fn row_col(buffer: Seq<char>, cursor: int) -> (int, int) {
    let r = rows(buffer.take(cursor));
    (r.len() - 1, r.last().len() as int)
}

impl InputModel {
    /// Whether the insertion point is in the text or at its end.
    pub open spec fn wf(self) -> bool {
        0 <= self.cursor <= self.buffer.len()
    }

    /// With the insertion point elsewhere.
    pub open spec fn at(self, cursor: int) -> InputModel {
        InputModel { cursor, ..self }
    }

    /// With a character inserted, and the insertion point after it.
    pub open spec fn inserted(self, c: char) -> InputModel {
        InputModel {
            buffer: self.buffer.insert(self.cursor, c),
            cursor: self.cursor + 1,
            ..self
        }
    }

    /// Without the character before the insertion point, if there is one.
    pub open spec fn backspaced(self) -> InputModel {
        if self.cursor == 0 {
            self
        } else {
            InputModel {
                buffer: self.buffer.remove(self.cursor - 1),
                cursor: self.cursor - 1,
                ..self
            }
        }
    }

    /// Without the character at the insertion point, if there is one.
    pub open spec fn deleted(self) -> InputModel {
        if self.cursor >= self.buffer.len() {
            self
        } else {
            InputModel { buffer: self.buffer.remove(self.cursor), ..self }
        }
    }

    /// One character to the left.
    pub open spec fn moved_left(self) -> InputModel {
        self.at(if self.cursor > 0 { self.cursor - 1 } else { 0 })
    }

    /// One character to the right.
    pub open spec fn moved_right(self) -> InputModel {
        self.at(if self.cursor < self.buffer.len() { self.cursor + 1 } else { self.buffer.len() as int })
    }

    /// One row up, in the same column; to the start from the first row.
    pub open spec fn moved_up(self) -> InputModel {
        let (l, c) = row_col(self.buffer, self.cursor);
        self.at(if l > 0 { index_at(self.buffer, l - 1, c) } else { 0 })
    }

    /// One row down, in the same column; to the end from the last row.
    pub open spec fn moved_down(self) -> InputModel {
        let (l, c) = row_col(self.buffer, self.cursor);
        self.at(index_at(self.buffer, l + 1, c))
    }

    /// To the start of the row.
    pub open spec fn moved_home(self) -> InputModel {
        self.at(index_at(self.buffer, row_col(self.buffer, self.cursor).0, 0))
    }

    /// To the end of the row.
    pub open spec fn moved_end(self) -> InputModel {
        self.at(index_at(self.buffer, row_col(self.buffer, self.cursor).0, self.buffer.len() as int))
    }
}

// ---- Rows --------------------------------------------------------------------

/// The rows, with a newline after each but the last, fill the text.
proof fn lemma_rows_fill(s: Seq<char>)
    ensures
        rows(s).len() > 0,
        row_start(rows(s), rows(s).len() - 1) + rows(s).last().len() == s.len(),
    decreases s.len(),
{
    let n = run_before(s, '\n') as int;
    lemma_run_before(s, '\n');
    if n < s.len() {
        let rest = s.skip(n + 1);
        lemma_rows_fill(rest);
        lemma_row_start_shift(s.take(n), rows(rest), rows(rest).len() - 1);
    }
}

/// Rows start later by the length of a row that is put before them.
proof fn lemma_row_start_shift(first: Seq<char>, rest: Seq<Seq<char>>, line: int)
    requires
        0 <= line < rest.len(),
    ensures
        row_start(seq![first] + rest, line + 1) == first.len() + 1 + row_start(rest, line),
    decreases line,
{
    let all = seq![first] + rest;
    if line > 0 {
        lemma_row_start_shift(first, rest, line - 1);
    } else {
        assert(row_start(all, 0) == 0);
    }
}

/// Rows that start with those of `q` start where those start.
proof fn lemma_row_start_same(q: Seq<Seq<char>>, r: Seq<Seq<char>>, line: int)
    requires
        0 <= line <= q.len(),
        line <= r.len(),
        forall|i: int| 0 <= i < line ==> q[i] == #[trigger] r[i],
    ensures
        row_start(q, line) == row_start(r, line),
    decreases line,
{
    if line > 0 {
        lemma_row_start_same(q, r, line - 1);
        assert(q[line - 1] == r[line - 1]);
    }
}

/// A row lies in the text.
proof fn lemma_row_in_text(s: Seq<char>, line: int)
    requires
        0 <= line < rows(s).len(),
    ensures
        0 <= row_start(rows(s), line),
        row_start(rows(s), line) + rows(s)[line].len() <= s.len(),
    decreases rows(s).len() - line,
{
    lemma_rows_fill(s);
    lemma_row_start_grows(rows(s), line, rows(s).len() - 1);
}

proof fn lemma_row_start_grows(r: Seq<Seq<char>>, a: int, b: int)
    requires
        0 <= a <= b < r.len(),
    ensures
        0 <= row_start(r, a),
        a < b ==> row_start(r, a) + r[a].len() < row_start(r, b),
        a == b ==> row_start(r, a) == row_start(r, b),
    decreases b,
{
    if a < b {
        lemma_row_start_grows(r, a, b - 1);
    } else if a > 0 {
        lemma_row_start_grows(r, a - 1, b - 1);
    }
}

/// One more character is one more row or one more character in the last row.
proof fn lemma_rows_push(s: Seq<char>, c: char)
    ensures
        c == '\n' ==> rows(s.push(c)) == rows(s).push(Seq::empty()),
        c != '\n' ==> rows(s.push(c)) == rows(s).drop_last().push(rows(s).last().push(c)),
    decreases s.len(),
{
    let n = run_before(s, '\n') as int;
    lemma_run_before(s, '\n');
    let t = s.push(c);
    lemma_rows_fill(s);
    if n < s.len() {
        lemma_run_before_is(t, '\n', n);
        assert(t.take(n) =~= s.take(n));
        assert(t.skip(n + 1) =~= s.skip(n + 1).push(c));
        lemma_rows_push(s.skip(n + 1), c);
        lemma_rows_fill(s.skip(n + 1));
        let (first, rest) = (seq![s.take(n)], rows(s.skip(n + 1)));
        assert(rows(s) == first + rest);
        if c == '\n' {
            assert(rows(t) =~= rows(s).push(Seq::empty()));
        } else {
            assert(rows(t) =~= rows(s).drop_last().push(rows(s).last().push(c)));
        }
    } else {
        assert(rows(s) == seq![s]);
        if c == '\n' {
            lemma_run_before_is(t, '\n', n);
            assert(t.take(n) =~= s);
            assert(t.skip(n + 1) =~= Seq::<char>::empty());
            assert(rows(t.skip(n + 1)) =~= seq![Seq::<char>::empty()]);
            assert(rows(t) =~= rows(s).push(Seq::empty()));
        } else {
            lemma_run_before(t, '\n');
            let m = run_before(t, '\n') as int;
            if m < t.len() {
                assert(t[m] == '\n');
                assert(s[m] == '\n');
            }
            assert(rows(t) == seq![t]);
            assert(rows(t) =~= rows(s).drop_last().push(rows(s).last().push(c)));
        }
    }
}

/// The rows of the text before a point are rows of the text, but for the last,
/// which is the start of one.
proof fn lemma_rows_before(s: Seq<char>, k: int)
    requires
        0 <= k <= s.len(),
    ensures
        rows(s.take(k)).len() <= rows(s).len(),
        forall|i: int|
            0 <= i < rows(s.take(k)).len() - 1 ==> rows(s.take(k))[i] == #[trigger] rows(s)[i],
        rows(s.take(k)).last().len() <= rows(s)[rows(s.take(k)).len() - 1].len(),
    decreases s.len() - k,
{
    lemma_rows_fill(s.take(k));
    if k == s.len() {
        assert(s.take(k) =~= s);
    } else {
        lemma_rows_before(s, k + 1);
        assert(s.take(k + 1) =~= s.take(k).push(s[k]));
        lemma_rows_push(s.take(k), s[k]);
        let (q, r) = (rows(s.take(k)), rows(s.take(k + 1)));
        if s[k] == '\n' {
            assert forall|i: int| 0 <= i < q.len() - 1 implies q[i] == #[trigger] rows(s)[i] by {
                assert(r[i] == q[i]);
            }
            assert(r[q.len() - 1] == q.last());
            assert(rows(s)[q.len() - 1] == r[q.len() - 1]);
        } else {
            assert forall|i: int| 0 <= i < q.len() - 1 implies q[i] == #[trigger] rows(s)[i] by {
                assert(r[i] == q[i]);
            }
        }
    }
}

/// The row and column of a character index lead back to it.
pub proof fn row_col_leads_back(buffer: Seq<char>, cursor: int)
    requires
        0 <= cursor <= buffer.len(),
    ensures
        index_at(buffer, row_col(buffer, cursor).0, row_col(buffer, cursor).1) == cursor,
{
    let q = rows(buffer.take(cursor));
    let (l, c) = row_col(buffer, cursor);
    lemma_rows_before(buffer, cursor);
    lemma_rows_fill(buffer.take(cursor));
    lemma_row_start_same(q, rows(buffer), l);
}

// ---- Editing -----------------------------------------------------------------

impl InputState {
    /// Whether the insertion point is in the text or at its end.
    pub open spec fn wf(&self) -> bool {
        self@.wf()
    }

    pub fn char_len(&self) -> (n: usize)
        ensures
            n == self@.buffer.len(),
    {
        chars_of(self.buffer.as_str()).len()
    }

    /// Byte offset of character index `idx` (or the end of the buffer).
    pub fn byte_at(&self, idx: usize) -> (b: usize)
        ensures
            b == byte_len(
                self@.buffer.take(
                    if idx < self@.buffer.len() {
                        idx as int
                    } else {
                        self@.buffer.len() as int
                    },
                ),
            ),
    {
        let v = chars_of(self.buffer.as_str());
        let size = self.buffer.as_str().as_bytes().len();
        let k = if idx < v.len() {
            idx
        } else {
            v.len()
        };
        proof {
            byte_len_is_utf8_length(self.buffer@);
            lemma_byte_len_add(v@.take(k as int), v@.skip(k as int));
            assert(v@ =~= v@.take(k as int) + v@.skip(k as int));
        }
        bytes_in(slice_subrange(v.as_slice(), 0, k)) as usize
    }

    pub fn insert(&mut self, c: char)
        requires
            old(self).wf(),
        ensures
            final(self)@ == old(self)@.inserted(c),
            final(self).wf(),
    {
        let mut v = chars_of(self.buffer.as_str());
        v.insert(self.cursor, c);
        assert(v.len() == old(self)@.buffer.len() + 1);
        self.buffer = string_of(v.as_slice());
        self.cursor = self.cursor + 1;
    }

    pub fn backspace(&mut self)
        requires
            old(self).wf(),
        ensures
            final(self)@ == old(self)@.backspaced(),
            final(self).wf(),
    {
        if self.cursor == 0 {
            return;
        }
        let mut v = chars_of(self.buffer.as_str());
        let _ = v.remove(self.cursor - 1);
        self.buffer = string_of(v.as_slice());
        self.cursor = self.cursor - 1;
    }

    pub fn delete(&mut self)
        requires
            old(self).wf(),
        ensures
            final(self)@ == old(self)@.deleted(),
            final(self).wf(),
    {
        let mut v = chars_of(self.buffer.as_str());
        if self.cursor >= v.len() {
            return;
        }
        let _ = v.remove(self.cursor);
        self.buffer = string_of(v.as_slice());
    }

    /// Cursor position as (line, column), both 0-based.
    pub fn line_col(&self) -> (r: (usize, usize))
        requires
            self.wf(),
        ensures
            (r.0 as int, r.1 as int) == row_col(self@.buffer, self@.cursor),
    {
        let v = chars_of(self.buffer.as_str());
        let mut line: usize = 0;
        let mut col: usize = 0;
        let mut i: usize = 0;
        proof {
            assert(v@.take(0) =~= Seq::empty());
            lemma_run_before(Seq::<char>::empty(), '\n');
            lemma_rows_fill(Seq::<char>::empty());
            assert(rows(Seq::<char>::empty()) =~= seq![Seq::<char>::empty()]);
        }
        while i < self.cursor
            invariant
                v@ == self@.buffer,
                self.wf(),
                i <= self.cursor,
                line <= i,
                col <= i,
                (line as int, col as int) == row_col(v@, i as int),
            decreases self.cursor - i,
        {
            proof {
                assert(v@.take(i + 1) =~= v@.take(i as int).push(v@[i as int]));
                lemma_rows_push(v@.take(i as int), v@[i as int]);
                lemma_rows_fill(v@.take(i as int));
            }
            if v[i] == '\n' {
                line += 1;
                col = 0;
            } else {
                col += 1;
            }
            i += 1;
        }
        (line, col)
    }

    /// Character index of (line, col), clamping col to the line's length.
    pub fn index_of(&self, line: usize, col: usize) -> (r: usize)
        ensures
            r == index_at(self@.buffer, line as int, col as int),
            r <= self@.buffer.len(),
    {
        let v = chars_of(self.buffer.as_str());
        let size = v.len();
        let parts = split(v.as_slice(), '\n');
        let mut idx: usize = 0;
        let mut i: usize = 0;
        let ghost r = rows(v@);
        while i < parts.len()
            invariant
                v@ == self@.buffer,
                size == v@.len(),
                r == rows(v@),
                slices(parts@) == r,
                i <= parts@.len(),
                i <= line,
                i < parts@.len() ==> idx == row_start(r, i as int),
            decreases parts@.len() - i,
        {
            proof {
                lemma_row_in_text(v@, i as int);
                assert(slices(parts@)[i as int] == parts@[i as int]@);
            }
            let len = parts[i].len();
            if i == line {
                return idx + (if col < len {
                    col
                } else {
                    len
                });
            }
            if i + 1 < parts.len() {
                proof {
                    lemma_row_in_text(v@, i + 1);
                }
                idx = idx + len + 1;
            }
            i += 1;
        }
        size
    }

    pub fn left(&mut self)
        requires
            old(self).wf(),
        ensures
            final(self)@ == old(self)@.moved_left(),
            final(self).wf(),
    {
        if self.cursor > 0 {
            self.cursor = self.cursor - 1;
        }
    }

    pub fn right(&mut self)
        requires
            old(self).wf(),
        ensures
            final(self)@ == old(self)@.moved_right(),
            final(self).wf(),
    {
        if self.cursor < self.char_len() {
            self.cursor = self.cursor + 1;
        }
    }

    pub fn up(&mut self)
        requires
            old(self).wf(),
        ensures
            final(self)@ == old(self)@.moved_up(),
            final(self).wf(),
    {
        let (l, c) = self.line_col();
        self.cursor = if l > 0 {
            self.index_of(l - 1, c)
        } else {
            0
        };
    }

    pub fn down(&mut self)
        requires
            old(self).wf(),
        ensures
            final(self)@ == old(self)@.moved_down(),
            final(self).wf(),
    {
        let (l, c) = self.line_col();
        let v = chars_of(self.buffer.as_str());
        let n = split(v.as_slice(), '\n').len();
        self.cursor = if l < n - 1 {
            self.index_of(l + 1, c)
        } else {
            v.len()
        };
    }

    pub fn home(&mut self)
        requires
            old(self).wf(),
        ensures
            final(self)@ == old(self)@.moved_home(),
            final(self).wf(),
    {
        let (l, _) = self.line_col();
        self.cursor = self.index_of(l, 0);
    }

    pub fn end(&mut self)
        requires
            old(self).wf(),
        ensures
            final(self)@ == old(self)@.moved_end(),
            final(self).wf(),
    {
        let (l, _) = self.line_col();
        let size = self.char_len();
        self.cursor = self.index_of(l, size);
    }
}

// ---- What editing promises ---------------------------------------------------

/// A backspace takes back an insertion and changes nothing else. At the start of the
/// text it changes nothing at all. The insertion point stays in the text.
pub proof fn backspace_undoes_insert(i: InputModel, c: char)
    requires
        i.wf(),
    ensures
        i.inserted(c).backspaced() == i,
        i.cursor == 0 ==> i.backspaced() == i,
        i.inserted(c).wf(),
        i.backspaced().wf(),
{
    assert(i.buffer.insert(i.cursor, c).remove(i.cursor) =~= i.buffer);
}

/// What is typed stands at the insertion point, and what is taken out stood before
/// or behind it; all the rest stays. A step to the left and one to the right undo each
/// other.
pub proof fn editing_is_local(before: Seq<char>, after: Seq<char>, i: InputModel, c: char)
    requires
        i.buffer == before + after,
        i.cursor == before.len(),
    ensures
        i.inserted(c).buffer == before.push(c) + after,
        i.inserted(c).cursor == before.len() + 1,
        before.len() > 0 ==> i.backspaced().buffer == before.drop_last() + after,
        before.len() > 0 ==> i.backspaced().cursor == before.len() - 1,
        before.len() == 0 ==> i.backspaced() == i,
        after.len() > 0 ==> i.deleted().buffer == before + after.skip(1),
        after.len() == 0 ==> i.deleted() == i,
        i.deleted().cursor == i.cursor,
        before.len() > 0 ==> i.moved_left().cursor == before.len() - 1 && i.moved_left().moved_right() == i,
        before.len() == 0 ==> i.moved_left() == i,
        after.len() > 0 ==> i.moved_right().cursor == before.len() + 1 && i.moved_right().moved_left() == i,
        after.len() == 0 ==> i.moved_right() == i,
{
    assert(i.inserted(c).buffer =~= before.push(c) + after);
    if before.len() > 0 {
        assert(i.backspaced().buffer =~= before.drop_last() + after);
    }
    if after.len() > 0 {
        assert(i.deleted().buffer =~= before + after.skip(1));
    }
}

/// Whether row `line` of a text is the text between two newlines or ends.
spec fn is_row(s: Seq<char>, start: int, end: int) -> bool {
    &&& 0 <= start <= end <= s.len()
    &&& start > 0 ==> s[start - 1] == '\n'
    &&& end < s.len() ==> s[end] == '\n'
    &&& forall|k: int| start <= k < end ==> #[trigger] s[k] != '\n'
}

proof fn lemma_rows_are_rows(s: Seq<char>, line: int)
    requires
        0 <= line < rows(s).len(),
    ensures
        is_row(s, row_start(rows(s), line), row_start(rows(s), line) + rows(s)[line].len()),
        line + 1 < rows(s).len() <==> row_start(rows(s), line) + rows(s)[line].len() < s.len(),
    decreases s.len(),
{
    let n = run_before(s, '\n') as int;
    lemma_run_before(s, '\n');
    if n < s.len() {
        let rest = s.skip(n + 1);
        lemma_rows_fill(rest);
        if line == 0 {
            assert(row_start(rows(s), 0) == 0);
            assert(rows(s)[0] == s.take(n));
        } else {
            lemma_rows_are_rows(rest, line - 1);
            lemma_row_start_shift(s.take(n), rows(rest), line - 1);
            let (a, b) = (row_start(rows(s), line), row_start(rows(s), line) + rows(s)[line].len());
            assert(rows(s)[line] == rows(rest)[line - 1]);
            assert forall|k: int| a <= k < b implies #[trigger] s[k] != '\n' by {
                assert(rest[k - n - 1] == s[k]);
            }
            if b < s.len() {
                assert(rest[b - n - 1] == s[b]);
            }
            if a - n - 1 > 0 {
                assert(rest[a - n - 2] == s[a - 1]);
            }
        }
    } else {
        assert(row_start(rows(s), 0) == 0);
    }
}

/// Where the insertion point is: its row, and the bounds of the row.
proof fn lemma_point(i: InputModel) -> (b: (int, int))
    requires
        i.wf(),
    ensures
        ({
            let (l, c) = row_col(i.buffer, i.cursor);
            let r = rows(i.buffer);
            &&& 0 <= l < r.len()
            &&& b == (row_start(r, l), row_start(r, l) + r[l].len() as int)
            &&& is_row(i.buffer, b.0, b.1)
            &&& b.0 <= i.cursor <= b.1
            &&& c == i.cursor - b.0
            &&& l + 1 < r.len() <==> b.1 < i.buffer.len()
        }),
{
    let (l, c) = row_col(i.buffer, i.cursor);
    let r = rows(i.buffer);
    lemma_rows_before(i.buffer, i.cursor);
    lemma_rows_fill(i.buffer.take(i.cursor));
    row_col_leads_back(i.buffer, i.cursor);
    lemma_rows_are_rows(i.buffer, l);
    (row_start(r, l), row_start(r, l) + r[l].len() as int)
}

proof fn lemma_rows_adjoin(r: Seq<Seq<char>>, l: int)
    requires
        0 <= l,
        l + 1 < r.len(),
    ensures
        row_start(r, l + 1) == row_start(r, l) + r[l].len() + 1,
{
}

/// Home goes to the start of the row and End to its end: no newline is passed, and
/// one stands there unless the text starts or ends.
pub proof fn home_and_end_bound_the_row(i: InputModel)
    requires
        i.wf(),
    ensures
        ({
            let (h, e) = (i.moved_home().cursor, i.moved_end().cursor);
            &&& 0 <= h <= i.cursor <= e <= i.buffer.len()
            &&& h == 0 || i.buffer[h - 1] == '\n'
            &&& e == i.buffer.len() || i.buffer[e] == '\n'
            &&& forall|k: int| h <= k < e ==> #[trigger] i.buffer[k] != '\n'
        }),
        i.moved_home().buffer == i.buffer,
        i.moved_end().buffer == i.buffer,
{
    let b = lemma_point(i);
}

/// Up and Down go to the row before and to the row after, to the same column or to
/// the end of the row if it is shorter; from the first row to the start of the text,
/// from the last to its end. Rows are told by where Home and End lead.
pub proof fn up_and_down_keep_the_column(i: InputModel)
    requires
        i.wf(),
    ensures
        ({
            let (h, e) = (i.moved_home().cursor, i.moved_end().cursor);
            let (u, d) = (i.moved_up(), i.moved_down());
            &&& 0 <= u.cursor <= i.buffer.len() && 0 <= d.cursor <= i.buffer.len()
            &&& u.buffer == i.buffer && d.buffer == i.buffer
            &&& h == 0 ==> u.cursor == 0
            &&& h > 0 ==> {
                &&& u.moved_end().cursor == h - 1
                &&& u.cursor - u.moved_home().cursor == i.cursor - h || (u.cursor == h - 1 && u.cursor
                    - u.moved_home().cursor < i.cursor - h)
            }
            &&& e == i.buffer.len() ==> d.cursor == e
            &&& e < i.buffer.len() ==> {
                &&& d.moved_home().cursor == e + 1
                &&& d.cursor - (e + 1) == i.cursor - h || (d.cursor == d.moved_end().cursor && d.cursor - (e + 1)
                    < i.cursor - h)
            }
        }),
{
    let b = lemma_point(i);
    let r = rows(i.buffer);
    let (l, c) = row_col(i.buffer, i.cursor);
    let (u, d) = (i.moved_up(), i.moved_down());
    lemma_rows_fill(i.buffer);
    if l > 0 {
        lemma_rows_adjoin(r, l - 1);
        lemma_rows_are_rows(i.buffer, l - 1);
        let bu = lemma_point(u);
        lemma_same_row(i.buffer, row_start(r, l - 1), row_start(r, l - 1) + r[l - 1].len(), bu.0, bu.1, u.cursor);
    } else {
        assert(row_start(r, 0) == 0);
    }
    if l + 1 < r.len() {
        lemma_rows_adjoin(r, l);
        lemma_rows_are_rows(i.buffer, l + 1);
        let bd = lemma_point(d);
        lemma_same_row(i.buffer, row_start(r, l + 1), row_start(r, l + 1) + r[l + 1].len(), bd.0, bd.1, d.cursor);
    }
}

/// A point is in one row.
proof fn lemma_same_row(s: Seq<char>, a: int, b: int, c: int, d: int, p: int)
    requires
        is_row(s, a, b),
        is_row(s, c, d),
        a <= p <= b,
        c <= p <= d,
    ensures
        a == c,
        b == d,
{
    if a < c {
        assert(s[c - 1] == '\n');
    } else if c < a {
        assert(s[a - 1] == '\n');
    }
    if b < d {
        assert(s[b] == '\n');
    } else if d < b {
        assert(s[d] == '\n');
    }
}

}

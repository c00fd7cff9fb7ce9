//! Locating hunks in a diff that delta has rendered.
//!
//! This relies on delta's default decorations: each file section starts with its
//! path on a line followed by a solid `─` rule, and each hunk is a box of three
//! lines whose middle one begins with `<new-line-number>:`.

use crate::number::{
    all_digits, decimal, digits_value, is_digit, lemma_decimal_digits, lemma_decimal_value, number_of,
    parse_number,
};
use crate::screen::{truncate_u16, truncated};
use crate::style::{line_models, line_text, Line, SpanModel};
use crate::text::{
    chars_of, copy_text, push_text, string_of, text_in, trim, trim_end, trimmed, trimmed_end, white_space,
};
use vstd::prelude::*;
use vstd::slice::slice_subrange;

verus! {

/// A hunk located in the rendered preview.
#[derive(Clone, Debug)]
pub struct HunkMark {
    /// Line offset of the hunk within the preview (scroll target).
    pub offset: u16,
    /// Repository-relative path the hunk belongs to (from the file header).
    pub path: Option<String>,
    /// New-file line number where the hunk starts.
    pub line: usize,
}

/// Where a hunk is.
#[verifier::ext_equal]
pub struct MarkModel {
    pub offset: u16,
    pub path: Option<Seq<char>>,
    pub line: usize,
}

impl View for HunkMark {
    type V = MarkModel;

    open spec fn view(&self) -> MarkModel {
        MarkModel { offset: self.offset, path: text_in(self.path), line: self.line }
    }
}

/// Where the hunks of a list are.
pub open spec fn mark_models(v: Seq<HunkMark>) -> Seq<MarkModel> {
    v.map_values(|h: HunkMark| h@)
}

/// Whether `s` is a solid horizontal rule.
pub open spec fn is_rule(s: Seq<char>) -> bool {
    s.len() > 0 && forall|i: int| 0 <= i < s.len() ==> #[trigger] s[i] == '─'
}

/// How many digits `s` starts with.
pub open spec fn digit_run(s: Seq<char>) -> nat
    decreases s.len(),
{
    if s.len() == 0 || !is_digit(s[0]) { 0 } else { 1 + digit_run(s.skip(1)) }
}

/// The line number that a hunk header starts with: digits before a colon.
pub open spec fn header_line(s: Seq<char>) -> Option<usize> {
    let n = digit_run(s) as int;
    if n == 0 || n >= s.len() || s[n] != ':' { None } else { number_of(s.take(n)) }
}

/// What follows the last rename arrow.
pub open spec fn after_arrow(s: Seq<char>) -> Seq<char>
    decreases s.len(),
{
    if s.len() == 0 || s.last() == '→' || s.last() == '⟶' {
        Seq::empty()
    } else {
        after_arrow(s.drop_last()).push(s.last())
    }
}

/// The path on a file header, taking the new name across a rename arrow.
pub open spec fn cleaned(s: Seq<char>) -> Seq<char> {
    trimmed(after_arrow(s))
}

/// What the first `k` lines tell: the hunks among them, and the file that the
/// lines after them belong to.
pub open spec fn marks_in(lines: Seq<Seq<char>>, k: int) -> (Seq<MarkModel>, Option<Seq<char>>)
    decreases k,
{
    if k <= 0 {
        (Seq::empty(), None)
    } else {
        let (marks, path) = marks_in(lines, k - 1);
        let line = lines[k - 1];
        if is_rule(trimmed_end(line)) {
            if k > 1 && trimmed(lines[k - 2]).len() > 0 {
                (marks, Some(cleaned(trimmed(lines[k - 2]))))
            } else {
                (marks, path)
            }
        } else {
            match header_line(line) {
                Some(n) => (
                    marks.push(
                        MarkModel {
                            offset: truncated(if k >= 2 { k - 2 } else { 0 }) as u16,
                            path,
                            line: n,
                        },
                    ),
                    path,
                ),
                None => (marks, path),
            }
        }
    }
}

/// The texts of styled lines.
pub open spec fn line_texts(lines: Seq<Seq<SpanModel>>) -> Seq<Seq<char>> {
    lines.map_values(|l: Seq<SpanModel>| line_text(l))
}

/// The hunks of a rendered diff.
pub open spec fn marks_of(lines: Seq<Seq<SpanModel>>) -> Seq<MarkModel> {
    marks_in(line_texts(lines), lines.len() as int).0
}

/// A solid horizontal rule (delta's file-title underline).
pub fn is_rule_line(s: &[char]) -> (r: bool)
    ensures
        r == is_rule(s@),
{
    let mut i: usize = 0;
    while i < s.len()
        invariant
            i <= s@.len(),
            forall|j: int| 0 <= j < i ==> #[trigger] s@[j] == '─',
        decreases s@.len() - i,
    {
        if s[i] != '─' {
            return false;
        }
        i += 1;
    }
    s.len() > 0
}

/// Parses a delta hunk-header middle line like `36: def foo():` into `36`.
pub fn parse_hunk_header(line: &[char]) -> (r: Option<usize>)
    ensures
        r == header_line(line@),
{
    let mut n: usize = 0;
    assert(line@.skip(0) =~= line@);
    while n < line.len() && '0' <= line[n] && line[n] <= '9'
        invariant
            n <= line@.len(),
            digit_run(line@) == n + digit_run(line@.skip(n as int)),
        decreases line@.len() - n,
    {
        assert(line@.skip(n as int)[0] == line@[n as int]);
        assert(line@.skip(n as int).skip(1) =~= line@.skip(n + 1));
        n += 1;
    }
    proof {
        if n < line@.len() {
            assert(line@.skip(n as int)[0] == line@[n as int]);
        }
    }
    if n == 0 || n >= line.len() || line[n] != ':' {
        None
    } else {
        parse_number(slice_subrange(line, 0, n))
    }
}

/// Cleans a delta file-header path, taking the new name across a rename arrow.
pub fn clean_path(s: &[char]) -> (r: String)
    ensures
        r@ == cleaned(s@),
{
    let mut i: usize = s.len();
    assert(s@.take(i as int) =~= s@);
    assert(s@.skip(i as int) =~= Seq::empty());
    assert(after_arrow(s@) =~= after_arrow(s@.take(i as int)) + s@.skip(i as int));
    while i > 0 && s[i - 1] != '→' && s[i - 1] != '⟶'
        invariant
            i <= s@.len(),
            after_arrow(s@) == after_arrow(s@.take(i as int)) + s@.skip(i as int),
        decreases i,
    {
        proof {
            assert(s@.take(i as int).drop_last() =~= s@.take(i - 1));
            assert(s@.take(i as int).last() == s@[i - 1]);
            assert(after_arrow(s@.take(i - 1)) + s@.skip(i - 1) =~= after_arrow(s@.take(i as int))
                + s@.skip(i as int));
        }
        i -= 1;
    }
    proof {
        if i > 0 {
            assert(s@.take(i as int).last() == s@[i - 1]);
        }
        assert(after_arrow(s@) =~= s@.skip(i as int));
    }
    string_of(trim(slice_subrange(s, i, s.len())))
}

/// The text of a line, without its styles.
pub fn text_of_line(line: &Line) -> (r: String)
    ensures
        r@ == line_text(line@),
{
    let mut r = String::new();
    let mut i: usize = 0;
    assert(line@.take(0) =~= Seq::empty());
    while i < line.spans.len()
        invariant
            i <= line.spans@.len(),
            r@ == line_text(line@.take(i as int)),
        decreases line.spans@.len() - i,
    {
        push_text(&mut r, line.spans[i].content.as_str());
        proof {
            let upto = line@.take(i + 1);
            assert(upto.drop_last() =~= line@.take(i as int));
            assert(upto.last() == line.spans@[i as int]@);
        }
        i += 1;
    }
    assert(line@.take(i as int) =~= line@);
    r
}

/// Locates hunks in a rendered (delta) diff.
pub fn analyze_hunks(text: &[Line]) -> (r: Vec<HunkMark>)
    ensures
        mark_models(r@) == marks_of(line_models(text@)),
{
    let mut marks: Vec<HunkMark> = Vec::new();
    let mut path: Option<String> = None;
    let mut above: Vec<char> = Vec::new();
    let mut i: usize = 0;
    let ghost t = line_texts(line_models(text@));
    assert(mark_models(marks@) =~= Seq::empty());
    while i < text.len()
        invariant
            i <= text@.len(),
            t == line_texts(line_models(text@)),
            i > 0 ==> above@ == t[i - 1],
            (mark_models(marks@), text_in(path)) == marks_in(t, i as int),
        decreases text@.len() - i,
    {
        let line = chars_of(text_of_line(&text[i]).as_str());
        assert(line@ == t[i as int]);
        if is_rule_line(trim_end(line.as_slice())) {
            if i > 0 {
                let name = trim(above.as_slice());
                if name.len() > 0 {
                    path = Some(clean_path(name));
                }
            }
        } else if let Some(n) = parse_hunk_header(line.as_slice()) {
            let ghost before = mark_models(marks@);
            let offset = truncate_u16(
                if i >= 1 {
                    i - 1
                } else {
                    0
                },
            );
            let mark = HunkMark { offset, path: copy_text(&path), line: n };
            marks.push(mark);
            assert(mark_models(marks@) =~= before.push(mark@));
        }
        above = line;
        i += 1;
    }
    marks
}

// ---- What locating promises --------------------------------------------------

proof fn lemma_marks_in_order(lines: Seq<Seq<char>>, k: int)
    requires
        0 <= k <= lines.len(),
        lines.len() <= 0x1_0000,
    ensures
        forall|i: int|
            0 <= i < marks_in(lines, k).0.len() ==> (#[trigger] marks_in(lines, k).0[i]).offset
                <= left_by_one(k - 1),
        forall|i: int, j: int|
            0 <= i < j < marks_in(lines, k).0.len() ==> (#[trigger] marks_in(lines, k).0[i]).offset <= (
            #[trigger] marks_in(lines, k).0[j]).offset,
    decreases k,
{
    if k > 0 {
        lemma_marks_in_order(lines, k - 1);
    }
}

spec fn left_by_one(n: int) -> int {
    if n >= 1 { n - 1 } else { 0 }
}

/// Hunks are found in the order in which they stand, as long as the preview has
/// no more lines than an offset can count.
pub proof fn marks_are_in_order(lines: Seq<Seq<SpanModel>>, i: int, j: int)
    requires
        lines.len() <= 0x1_0000,
        0 <= i < j < marks_of(lines).len(),
    ensures
        marks_of(lines)[i].offset <= marks_of(lines)[j].offset,
{
    lemma_marks_in_order(line_texts(lines), lines.len() as int);
}

/// Whether a line is the header of a hunk at line `n`: digits that denote `n`, a
/// colon, and any text.
pub open spec fn heads_hunk(s: Seq<char>, n: usize) -> bool {
    exists|d: Seq<char>, rest: Seq<char>|
        #![trigger d + seq![':'] + rest]
        d.len() > 0 && (forall|i: int| 0 <= i < d.len() ==> '0' <= #[trigger] d[i] <= '9') && digits_value(d) == n
            && s == d + seq![':'] + rest
}

proof fn lemma_digit_run(s: Seq<char>)
    ensures
        digit_run(s) <= s.len(),
        forall|i: int| 0 <= i < digit_run(s) ==> is_digit(#[trigger] s[i]),
        digit_run(s) < s.len() ==> !is_digit(s[digit_run(s) as int]),
    decreases s.len(),
{
    if s.len() > 0 && is_digit(s[0]) {
        lemma_digit_run(s.skip(1));
        assert forall|i: int| 0 <= i < digit_run(s) implies is_digit(#[trigger] s[i]) by {
            if i > 0 {
                assert(s.skip(1)[i - 1] == s[i]);
            }
        }
    }
}

/// A line is read as the header of a hunk just if it is one, and with its number.
pub proof fn headers_are_read(s: Seq<char>, n: usize)
    ensures
        header_line(s) == Some(n) <==> heads_hunk(s, n),
{
    lemma_digit_run(s);
    let k = digit_run(s) as int;
    if header_line(s) == Some(n) {
        let (d, rest) = (s.take(k), s.skip(k + 1));
        assert(s =~= d + seq![':'] + rest);
        assert(is_digit(d[0]));
        assert(heads_hunk(s, n));
    }
    if heads_hunk(s, n) {
        let (d, rest) = choose|d: Seq<char>, rest: Seq<char>|
            #![trigger d + seq![':'] + rest]
            d.len() > 0 && (forall|i: int| 0 <= i < d.len() ==> '0' <= #[trigger] d[i] <= '9') && digits_value(d) == n
                && s == d + seq![':'] + rest;
        let m = d.len() as int;
        assert(s[m] == ':');
        if k < m {
            assert(s[k] == d[k]);
        } else if k > m {
            assert(is_digit(s[m]));
        }
        assert(s.take(k) =~= d);
        assert('0' <= d[0]);
        assert(all_digits(d));
    }
}

/// The decimal notation of any line number, a colon and any text are the header of a
/// hunk at that line.
pub proof fn numbered_line_is_header(n: usize, rest: Seq<char>)
    ensures
        header_line(decimal(n as nat) + seq![':'] + rest) == Some(n),
{
    let d = decimal(n as nat);
    lemma_decimal_digits(n as nat);
    lemma_decimal_value(n as nat);
    assert(heads_hunk(d + seq![':'] + rest, n)) by {
        assert forall|i: int| 0 <= i < d.len() implies '0' <= #[trigger] d[i] <= '9' by {
            assert(is_digit(d[i]));
        }
    }
    headers_are_read(d + seq![':'] + rest, n);
}

/// Whether a line is a rule: solid, but for white space behind it.
pub open spec fn is_underline(s: Seq<char>) -> bool {
    trimmed_end(s).len() > 0 && forall|i: int| 0 <= i < trimmed_end(s).len() ==> #[trigger] trimmed_end(s)[i] == '─'
}

/// The rows of a rendered diff that head a hunk: for each, the one of its hunks that
/// it heads. There is one hunk for each such row, in order, and no other. It is at
/// the row above, has the number that the row starts with, and belongs to the file
/// that is named over the last rule before it.
pub proof fn one_hunk_per_header(lines: Seq<Seq<SpanModel>>) -> (rows: Seq<int>)
    ensures
        ({
            let (t, marks) = (line_texts(lines), marks_of(lines));
            &&& rows.len() == marks.len()
            &&& forall|i: int, j: int| 0 <= i < j < rows.len() ==> #[trigger] rows[i] < #[trigger] rows[j]
            &&& forall|i: int|
                0 <= i < rows.len() ==> 0 <= #[trigger] rows[i] < lines.len() && heads_hunk(t[rows[i]], marks[i].line)
                    && (rows[i] <= 0x1_0000 ==> marks[i].offset == if rows[i] > 0 { rows[i] - 1 } else { 0 })
            &&& forall|i: int| 0 <= i < rows.len() ==> is_named(t, #[trigger] rows[i], marks[i].path)
            &&& forall|k: int, n: usize|
                0 <= k < lines.len() && #[trigger] heads_hunk(t[k], n) ==> rows.contains(k)
        }),
{
    let t = line_texts(lines);
    let marks = marks_of(lines);
    let rows = lemma_rows(t, lines.len() as int);
    assert forall|i: int| 0 <= i < rows.len() implies is_named(t, #[trigger] rows[i], marks[i].path) by {
        lemma_named(t, rows[i]);
    }
    rows
}

proof fn lemma_trimmed_end_first(s: Seq<char>)
    ensures
        trimmed_end(s).len() > 0 ==> s.len() > 0 && trimmed_end(s)[0] == s[0],
    decreases s.len(),
{
    if s.len() > 0 && white_space(s.last()) {
        lemma_trimmed_end_first(s.drop_last());
    }
}

/// A line that heads a hunk is no rule.
proof fn lemma_header_no_rule(s: Seq<char>, n: usize)
    requires
        heads_hunk(s, n),
    ensures
        !is_rule(trimmed_end(s)),
{
    lemma_trimmed_end_first(s);
    let (d, rest) = choose|d: Seq<char>, rest: Seq<char>|
        #![trigger d + seq![':'] + rest]
        d.len() > 0 && (forall|i: int| 0 <= i < d.len() ==> '0' <= #[trigger] d[i] <= '9') && digits_value(d) == n
            && s == d + seq![':'] + rest;
    assert('0' <= d[0] <= '9');
    assert(s[0] == d[0]);
    if is_rule(trimmed_end(s)) {
        assert(trimmed_end(s)[0] == '─');
    }
}

/// Whether the line above `r` names the file of row `row`: it is not blank, `r` is a
/// rule, and no other name comes between.
pub open spec fn is_titled(t: Seq<Seq<char>>, row: int, r: int) -> bool {
    &&& 0 < r < row
    &&& is_underline(t[r])
    &&& trimmed(t[r - 1]).len() > 0
    &&& forall|q: int| r < q < row && is_underline(#[trigger] t[q]) ==> trimmed(t[q - 1]).len() == 0
}

proof fn lemma_title(t: Seq<Seq<char>>, k: int)
    requires
        0 <= k <= t.len(),
    ensures
        marks_in(t, k).1 matches Some(path) ==> exists|r: int| #[trigger]
            is_titled(t, k, r) && path == cleaned(trimmed(t[r - 1])),
        marks_in(t, k).1 is None ==> forall|r: int| !#[trigger] is_titled(t, k, r),
    decreases k,
{
    if k > 0 {
        lemma_title(t, k - 1);
        let (was, now) = (marks_in(t, k - 1).1, marks_in(t, k).1);
        let named = is_underline(t[k - 1]) && k > 1 && trimmed(t[k - 2]).len() > 0;
        assert(is_rule(trimmed_end(t[k - 1])) == is_underline(t[k - 1]));
        if named {
            assert(is_titled(t, k, k - 1));
        } else {
            if let Some(path) = was {
                let r = choose|r: int| #[trigger] is_titled(t, k - 1, r) && path == cleaned(trimmed(t[r - 1]));
                assert(is_titled(t, k, r));
            } else {
                assert forall|r: int| !#[trigger] is_titled(t, k, r) by {
                    if is_titled(t, k, r) {
                        assert(is_titled(t, k - 1, r));
                    }
                }
            }
        }
    }
}

/// Whether `path` is the file of row `row`: the one that is named over the last rule
/// before it, if there is one.
pub open spec fn is_named(t: Seq<Seq<char>>, row: int, path: Option<Seq<char>>) -> bool {
    &&& forall|r: int| #[trigger]
        is_titled(t, row, r) ==> path is Some && is_new_name(trimmed(t[r - 1]), path.unwrap())
    &&& (forall|r: int| !#[trigger] is_titled(t, row, r)) ==> path is None
}

proof fn lemma_named(t: Seq<Seq<char>>, row: int)
    requires
        0 <= row <= t.len(),
    ensures
        is_named(t, row, marks_in(t, row).1),
{
    lemma_title(t, row);
    let path = marks_in(t, row).1;
    assert forall|r: int| #[trigger] is_titled(t, row, r) implies path is Some && is_new_name(
        trimmed(t[r - 1]),
        path.unwrap(),
    ) by {
        let q = choose|q: int| #[trigger] is_titled(t, row, q) && path.unwrap() == cleaned(trimmed(t[q - 1]));
        if q < r {
            assert(is_underline(t[r]));
        } else if r < q {
            assert(is_underline(t[q]));
        }
        titles_give_the_new_name(trimmed(t[r - 1]));
    }
}

/// Whether `name` is what stands behind the last arrow of a title, or all of the
/// title if it has none, without white space around it.
pub open spec fn is_new_name(title: Seq<char>, name: Seq<char>) -> bool {
    exists|a: Seq<char>, b: Seq<char>|
        #![trigger a + b]
        title == a + b && (a.len() > 0 ==> a.last() == '→' || a.last() == '⟶') && (forall|i: int|
            0 <= i < b.len() ==> #[trigger] b[i] != '→' && b[i] != '⟶') && name == trimmed(b)
}

proof fn lemma_after_arrow(s: Seq<char>) -> (a: Seq<char>)
    ensures
        s == a + after_arrow(s),
        a.len() > 0 ==> a.last() == '→' || a.last() == '⟶',
        forall|i: int| 0 <= i < after_arrow(s).len() ==> #[trigger] after_arrow(s)[i] != '→' && after_arrow(s)[i]
            != '⟶',
    decreases s.len(),
{
    if s.len() == 0 || s.last() == '→' || s.last() == '⟶' {
        assert(s + after_arrow(s) =~= s);
        s
    } else {
        let a = lemma_after_arrow(s.drop_last());
        assert(a + after_arrow(s) =~= (a + after_arrow(s.drop_last())).push(s.last()));
        assert(s =~= s.drop_last().push(s.last()));
        a
    }
}

/// The name on a title is the new one.
pub proof fn titles_give_the_new_name(title: Seq<char>)
    ensures
        is_new_name(title, cleaned(title)),
{
    let a = lemma_after_arrow(title);
    assert(title == a + after_arrow(title));
}

proof fn lemma_rows(t: Seq<Seq<char>>, k: int) -> (rows: Seq<int>)
    requires
        0 <= k <= t.len(),
    ensures
        ({
            let marks = marks_in(t, k).0;
            &&& rows.len() == marks.len()
            &&& forall|i: int, j: int| 0 <= i < j < rows.len() ==> #[trigger] rows[i] < #[trigger] rows[j]
            &&& forall|i: int|
                0 <= i < rows.len() ==> 0 <= #[trigger] rows[i] < k && heads_hunk(t[rows[i]], marks[i].line)
                    && (rows[i] <= 0x1_0000 ==> marks[i].offset == if rows[i] > 0 { rows[i] - 1 } else { 0 })
                    && marks[i].path == marks_in(t, rows[i]).1
            &&& forall|r: int, n: usize| 0 <= r < k && #[trigger] heads_hunk(t[r], n) ==> rows.contains(r)
        }),
    decreases k,
{
    if k <= 0 {
        Seq::empty()
    } else {
        let before = lemma_rows(t, k - 1);
        let line = t[k - 1];
        let marks = marks_in(t, k).0;
        if !is_rule(trimmed_end(line)) && header_line(line) is Some {
            let n = header_line(line).unwrap();
            headers_are_read(line, n);
            let rows = before.push(k - 1);
            assert forall|r: int, n: usize| 0 <= r < k && #[trigger] heads_hunk(t[r], n) implies rows.contains(r) by {
                if r < k - 1 {
                    let i = choose|i: int| 0 <= i < before.len() && before[i] == r;
                    assert(rows[i] == r);
                } else {
                    assert(rows[rows.len() - 1] == r);
                }
            }
            assert forall|i: int| 0 <= i < rows.len() implies 0 <= #[trigger] rows[i] < k && heads_hunk(
                t[rows[i]],
                marks[i].line,
            ) && (rows[i] <= 0x1_0000 ==> marks[i].offset == if rows[i] > 0 { rows[i] - 1 } else { 0 })
                && marks[i].path == marks_in(t, rows[i]).1 by {
                if i < before.len() {
                    assert(rows[i] == before[i]);
                }
            }
            rows
        } else {
            assert forall|r: int, n: usize| 0 <= r < k && #[trigger] heads_hunk(t[r], n) implies before.contains(
                r,
            ) by {
                if r == k - 1 {
                    headers_are_read(line, n);
                    lemma_header_no_rule(line, n);
                }
            }
            before
        }
    }
}

}

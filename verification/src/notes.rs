//! Notes: anchored comments that are attached to a range of a file.
//!
//! A note pins to a character (`v`) or line (`V`) range of a file's working-tree
//! content. Because the file keeps changing underneath the notes, each note also
//! stores a copy of the text it was taken over (its snippet). On every refresh
//! each note is revalidated against the current content: if the snippet still
//! sits at the recorded coordinates the note is kept as it is; if it has merely
//! moved the note is re-anchored; if it is gone the note is dropped.
//!
//! Coordinates: lines count from 1, columns from 0, in characters of the
//! tab-expanded line, inclusive on both ends. Columns are unused for line-wise
//! notes.

use crate::calendar::{is_timestamp, now_iso8601, unique_id};
use crate::text::{
    begins, chars_of, copy_strings, ends, find_from, first_occurrence, join, joined, lemma_first_occurrence,
    lines, lines_of, occurs_at, replace, replaced, replacing_acts_on_each, same, same_text, slices,
    string_of, texts,
};
use vstd::prelude::*;
use vstd::slice::slice_subrange;

verus! {

/// Whether a selection covers characters (`v`) or whole lines (`V`).
#[derive(Clone, Copy, Debug, PartialEq, Eq, Structural)]
pub enum SelKind {
    Char,
    Line,
}

/// A position in a file: a line, from 1, and a column, from 0.
pub type Position = (usize, usize);

/// Whether `a` comes before `b` in reading order.
pub open spec fn precedes(a: Position, b: Position) -> bool {
    a.0 < b.0 || (a.0 == b.0 && a.1 < b.1)
}

/// Whether `a` comes before `b` in reading order.
pub fn before(a: Position, b: Position) -> (r: bool)
    ensures
        r == precedes(a, b),
{
    a.0 < b.0 || (a.0 == b.0 && a.1 < b.1)
}

/// The earlier and the later of two positions.
pub open spec fn in_order(a: Position, b: Position) -> (Position, Position) {
    if precedes(b, a) {
        (b, a)
    } else {
        (a, b)
    }
}

/// The earlier and the later of two positions.
pub fn ordered(a: Position, b: Position) -> (r: (Position, Position))
    ensures
        r == in_order(a, b),
{
    if before(b, a) {
        (b, a)
    } else {
        (a, b)
    }
}

/// Whether a selection of the given kind from `a` to `b` covers `(line, col)`.
pub open spec fn covers(kind: SelKind, a: Position, b: Position, line: usize, col: usize) -> bool {
    match kind {
        SelKind::Line => a.0 <= line <= b.0,
        SelKind::Char => !precedes((line, col), a) && !precedes(b, (line, col)),
    }
}

/// Whether a selection of the given kind from `a` to `b` covers `(line, col)`.
pub fn is_covered(kind: SelKind, a: Position, b: Position, line: usize, col: usize) -> (r: bool)
    ensures
        r == covers(kind, a, b, line, col),
{
    match kind {
        SelKind::Line => line >= a.0 && line <= b.0,
        SelKind::Char => {
            let after_start = line > a.0 || (line == a.0 && col >= a.1);
            let before_end = line < b.0 || (line == b.0 && col <= b.1);
            after_start && before_end
        },
    }
}

// ---- Text slicing ------------------------------------------------------------

/// The text of the last line of a character selection, up to and with column
/// `ec`. An empty line is covered by column 0.
pub open spec fn head_of(line: Seq<char>, ec: int) -> Option<Seq<char>> {
    if line.len() == 0 {
        if ec == 0 { Some(Seq::empty()) } else { None }
    } else if ec < line.len() {
        Some(line.take(ec + 1))
    } else {
        None
    }
}

/// The text a selection covers, line by line, or `None` if the coordinates do
/// not lie in `lines`.
pub open spec fn covered_text(
    kind: SelKind,
    lines: Seq<Seq<char>>,
    start: Position,
    end: Position,
) -> Option<Seq<Seq<char>>> {
    let (sl, sc, el, ec) = (start.0 as int, start.1 as int, end.0 as int, end.1 as int);
    if sl == 0 || el < sl || el > lines.len() {
        None
    } else {
        match kind {
            SelKind::Line => Some(lines.subrange(sl - 1, el)),
            SelKind::Char => if sl == el {
                let line = lines[sl - 1];
                if line.len() == 0 && sc == 0 && ec == 0 {
                    Some(seq![Seq::<char>::empty()])
                } else if sc <= ec < line.len() {
                    Some(seq![line.subrange(sc, ec + 1)])
                } else {
                    None
                }
            } else if sc > lines[sl - 1].len() {
                None
            } else {
                match head_of(lines[el - 1], ec) {
                    Some(head) => Some(
                        seq![lines[sl - 1].skip(sc)] + lines.subrange(sl, el - 1) + seq![head],
                    ),
                    None => None,
                }
            },
        }
    }
}

/// The text a selection covers, or `None` if the coordinates fall outside `lines`.
pub fn slice(
    kind: SelKind,
    lines: &[String],
    sl: usize,
    sc: usize,
    el: usize,
    ec: usize,
) -> (r: Option<Vec<String>>)
    ensures
        r is Some <==> covered_text(kind, texts(lines@), (sl, sc), (el, ec)) is Some,
        r matches Some(v) ==> covered_text(kind, texts(lines@), (sl, sc), (el, ec)) == Some(texts(v@)),
{
    if sl == 0 || el < sl || el > lines.len() {
        return None;
    }
    let ghost t = texts(lines@);
    let s0 = sl - 1;
    let e0 = el - 1;
    match kind {
        SelKind::Line => {
            let v = copy_strings(slice_subrange(lines, s0, el));
            assert(texts(v@) =~= t.subrange(sl - 1, el as int));
            Some(v)
        },
        SelKind::Char => {
            if s0 == e0 {
                let chars = chars_of(lines[s0].as_str());
                if chars.len() == 0 {
                    if sc == 0 && ec == 0 {
                        let mut v: Vec<String> = Vec::new();
                        v.push(String::new());
                        assert(texts(v@) =~= seq![Seq::<char>::empty()]);
                        return Some(v);
                    }
                    return None;
                }
                if sc > ec || ec >= chars.len() {
                    return None;
                }
                let mut v: Vec<String> = Vec::new();
                v.push(string_of(slice_subrange(chars.as_slice(), sc, ec + 1)));
                assert(texts(v@) =~= seq![t[sl - 1].subrange(sc as int, ec + 1)]);
                Some(v)
            } else {
                let first = chars_of(lines[s0].as_str());
                if sc > first.len() {
                    return None;
                }
                let mut v: Vec<String> = Vec::new();
                v.push(string_of(slice_subrange(first.as_slice(), sc, first.len())));
                let mut middle = copy_strings(slice_subrange(lines, sl, e0));
                v.append(&mut middle);
                let last = chars_of(lines[e0].as_str());
                if last.len() == 0 {
                    if ec != 0 {
                        return None;
                    }
                    v.push(String::new());
                } else {
                    if ec >= last.len() {
                        return None;
                    }
                    v.push(string_of(slice_subrange(last.as_slice(), 0, ec + 1)));
                }
                proof {
                    let head = head_of(t[el - 1], ec as int).unwrap();
                    assert(texts(v@) =~= seq![t[sl - 1].skip(sc as int)] + t.subrange(
                        sl as int,
                        el - 1,
                    ) + seq![head]);
                }
                Some(v)
            }
        },
    }
}

// ---- Relocation --------------------------------------------------------------

/// The first and last column that `snippet` covers in the block of `lines` that
/// starts at index `s0`, or `None` if it does not match there. Of a character
/// snippet over several lines, the first is the end of its line, the last the
/// beginning of its line (an empty one stands for an empty line), and those
/// between are whole lines.
pub open spec fn block_match(
    kind: SelKind,
    lines: Seq<Seq<char>>,
    s0: int,
    snippet: Seq<Seq<char>>,
) -> Option<(int, int)> {
    let n = snippet.len() as int;
    match kind {
        SelKind::Line => if lines.subrange(s0, s0 + n) == snippet {
            Some((0int, 0int))
        } else {
            None
        },
        SelKind::Char => if n == 1 {
            if snippet[0].len() == 0 {
                if lines[s0].len() == 0 { Some((0int, 0int)) } else { None }
            } else {
                match first_occurrence(lines[s0], snippet[0], 0) {
                    Some(i) => Some((i, i + snippet[0].len() - 1)),
                    None => None,
                }
            }
        } else if ends(lines[s0], snippet[0]) && lines.subrange(s0 + 1, s0 + n - 1)
            == snippet.subrange(1, n - 1) && begins(lines[s0 + n - 1], snippet[n - 1]) && (
        snippet[n - 1].len() == 0 ==> lines[s0 + n - 1].len() == 0) {
            Some(
                (
                    lines[s0].len() - snippet[0].len(),
                    if snippet[n - 1].len() > 0 { snippet[n - 1].len() - 1 } else { 0int },
                ),
            )
        } else {
            None
        },
    }
}

/// Whether `snippet` matches the block of `lines` that starts at index `s0`.
pub open spec fn matches_at(
    kind: SelKind,
    lines: Seq<Seq<char>>,
    snippet: Seq<Seq<char>>,
    s0: int,
) -> bool {
    0 <= s0 && s0 + snippet.len() <= lines.len() && block_match(kind, lines, s0, snippet) is Some
}

/// How far apart two lines are.
pub open spec fn distance(a: int, b: int) -> int {
    if a <= b { b - a } else { a - b }
}

/// Whether the match at index `s0` is the one nearest to the line `hint`; of
/// two equally near, the earlier one is.
pub open spec fn is_nearest(
    kind: SelKind,
    lines: Seq<Seq<char>>,
    snippet: Seq<Seq<char>>,
    hint: int,
    s0: int,
) -> bool {
    &&& matches_at(kind, lines, snippet, s0)
    &&& forall|j: int| #[trigger]
        matches_at(kind, lines, snippet, j) ==> distance(s0 + 1, hint) < distance(j + 1, hint) || (
        distance(s0 + 1, hint) == distance(j + 1, hint) && s0 <= j)
}

/// Where `snippet` is found in `lines`: at the match nearest to the line `hint`.
pub open spec fn relocated(
    kind: SelKind,
    lines: Seq<Seq<char>>,
    snippet: Seq<Seq<char>>,
    hint: int,
) -> Option<(Position, Position)> {
    if snippet.len() > 0 && exists|s0: int| matches_at(kind, lines, snippet, s0) {
        let s0 = choose|s0: int| is_nearest(kind, lines, snippet, hint, s0);
        let (sc, ec) = block_match(kind, lines, s0, snippet).unwrap();
        Some(
            (
                ((s0 + 1) as usize, sc as usize),
                ((s0 + snippet.len()) as usize, ec as usize),
            ),
        )
    } else {
        None
    }
}

/// No two matches are both the nearest.
proof fn lemma_nearest_unique(
    kind: SelKind,
    lines: Seq<Seq<char>>,
    snippet: Seq<Seq<char>>,
    hint: int,
    a: int,
    b: int,
)
    requires
        is_nearest(kind, lines, snippet, hint, a),
        is_nearest(kind, lines, snippet, hint, b),
    ensures
        a == b,
{
}

/// Where there is a match at or before index `k`, there is a nearest among those.
proof fn lemma_nearest_upto(
    kind: SelKind,
    lines: Seq<Seq<char>>,
    snippet: Seq<Seq<char>>,
    hint: int,
    k: int,
) -> (best: int)
    requires
        exists|s0: int| s0 <= k && #[trigger] matches_at(kind, lines, snippet, s0),
    ensures
        best <= k,
        matches_at(kind, lines, snippet, best),
        forall|j: int| j <= k && #[trigger] matches_at(kind, lines, snippet, j) ==> distance(
            best + 1,
            hint,
        ) < distance(j + 1, hint) || (distance(best + 1, hint) == distance(j + 1, hint) && best <= j),
    decreases k + 1,
{
    let w = choose|s0: int| s0 <= k && #[trigger] matches_at(kind, lines, snippet, s0);
    assert(0 <= w <= k);
    if exists|s0: int| s0 <= k - 1 && #[trigger] matches_at(kind, lines, snippet, s0) {
        let b = lemma_nearest_upto(kind, lines, snippet, hint, k - 1);
        if matches_at(kind, lines, snippet, k) && distance(k + 1, hint) < distance(b + 1, hint) {
            k
        } else {
            b
        }
    } else {
        assert(w == k);
        w
    }
}

/// Where there is a match, there is a nearest one.
proof fn lemma_nearest_exists(
    kind: SelKind,
    lines: Seq<Seq<char>>,
    snippet: Seq<Seq<char>>,
    hint: int,
)
    requires
        exists|s0: int| matches_at(kind, lines, snippet, s0),
    ensures
        exists|s0: int| is_nearest(kind, lines, snippet, hint, s0),
{
    let w = choose|s0: int| matches_at(kind, lines, snippet, s0);
    let k = lines.len() as int;
    assert(w <= k && matches_at(kind, lines, snippet, w));
    let best = lemma_nearest_upto(kind, lines, snippet, hint, k);
    assert(is_nearest(kind, lines, snippet, hint, best));
}

/// The index of the first occurrence of `needle` within `hay`.
pub fn find_subslice(hay: &[char], needle: &[char]) -> (r: Option<usize>)
    ensures
        r is Some <==> first_occurrence(hay@, needle@, 0) is Some,
        r matches Some(i) ==> first_occurrence(hay@, needle@, 0) == Some(i as int),
        r matches Some(i) ==> i + needle@.len() <= hay@.len(),
{
    find_from(hay, needle, 0)
}

/// Whether `lines[from..from + n]` and `snippet[at..at + n]` are the same lines.
fn same_lines(lines: &[String], from: usize, snippet: &[String], at: usize, n: usize) -> (r: bool)
    requires
        from + n <= lines@.len(),
        at + n <= snippet@.len(),
    ensures
        r == (texts(lines@).subrange(from as int, from + n) == texts(snippet@).subrange(
            at as int,
            at + n,
        )),
{
    let ghost a = texts(lines@).subrange(from as int, from + n);
    let ghost b = texts(snippet@).subrange(at as int, at + n);
    let (total, size) = (lines.len(), snippet.len());
    let mut i: usize = 0;
    while i < n
        invariant
            i <= n,
            from + n <= total == lines@.len(),
            at + n <= size == snippet@.len(),
            a == texts(lines@).subrange(from as int, from + n),
            b == texts(snippet@).subrange(at as int, at + n),
            forall|j: int| 0 <= j < i ==> a[j] == b[j],
        decreases n - i,
    {
        if !same_text(lines[from + i].as_str(), snippet[at + i].as_str()) {
            assert(a[i as int] != b[i as int]);
            return false;
        }
        i += 1;
    }
    assert(a =~= b);
    true
}

/// Whether `snippet` matches the block of `lines` starting at index `s0`. On a
/// match, returns the first and last column of the covered characters.
pub fn block_matches(kind: SelKind, lines: &[String], s0: usize, snippet: &[String]) -> (r: Option<
    (usize, usize),
>)
    requires
        snippet@.len() > 0,
        s0 + snippet@.len() <= lines@.len(),
    ensures
        r is Some <==> block_match(kind, texts(lines@), s0 as int, texts(snippet@)) is Some,
        r matches Some((sc, ec)) ==> block_match(kind, texts(lines@), s0 as int, texts(snippet@)) == Some(
            (sc as int, ec as int),
        ),
{
    let n = snippet.len();
    let total = lines.len();
    let ghost t = texts(lines@);
    let ghost u = texts(snippet@);
    match kind {
        SelKind::Line => {
            assert(u.subrange(0, n as int) =~= u);
            if same_lines(lines, s0, snippet, 0, n) {
                Some((0, 0))
            } else {
                None
            }
        },
        SelKind::Char => {
            if n == 1 {
                let hay = chars_of(lines[s0].as_str());
                let needle = chars_of(snippet[0].as_str());
                if needle.len() == 0 {
                    return if hay.len() == 0 {
                        Some((0, 0))
                    } else {
                        None
                    };
                }
                match find_subslice(hay.as_slice(), needle.as_slice()) {
                    Some(sc) => {
                        let width = hay.len();
                        assert(sc + needle@.len() <= width);
                        Some((sc, sc + (needle.len() - 1)))
                    },
                    None => None,
                }
            } else {
                let first = chars_of(lines[s0].as_str());
                let first_needle = chars_of(snippet[0].as_str());
                if first_needle.len() > first.len() {
                    return None;
                }
                let sc = first.len() - first_needle.len();
                if !same(slice_subrange(first.as_slice(), sc, first.len()), first_needle.as_slice()) {
                    return None;
                }
                if !same_lines(lines, s0 + 1, snippet, 1, n - 2) {
                    return None;
                }
                let last = chars_of(lines[s0 + (n - 1)].as_str());
                let last_needle = chars_of(snippet[n - 1].as_str());
                if last_needle.len() > last.len() {
                    return None;
                }
                if !same(slice_subrange(last.as_slice(), 0, last_needle.len()), last_needle.as_slice()) {
                    return None;
                }
                if last_needle.len() == 0 {
                    return if last.len() == 0 {
                        Some((sc, 0))
                    } else {
                        None
                    };
                }
                Some((sc, last_needle.len() - 1))
            }
        },
    }
}

/// Searches `lines` for `snippet`: the start and end of the occurrence nearest
/// to `hint_line`.
pub fn relocate(kind: SelKind, lines: &[String], snippet: &[String], hint_line: usize) -> (r: Option<
    (usize, usize, usize, usize),
>)
    ensures
        r is Some <==> relocated(kind, texts(lines@), texts(snippet@), hint_line as int) is Some,
        r matches Some((sl, sc, el, ec)) ==> relocated(
            kind,
            texts(lines@),
            texts(snippet@),
            hint_line as int,
        ) == Some(((sl, sc), (el, ec))),
{
    let n = snippet.len();
    let total = lines.len();
    let ghost t = texts(lines@);
    let ghost u = texts(snippet@);
    if n == 0 || n > total {
        return None;
    }
    let last = total - n;
    let mut best: Option<(usize, usize, usize)> = None;
    let mut s0: usize = 0;
    while s0 <= last
        invariant
            n == snippet@.len(),
            total == lines@.len(),
            0 < n <= total,
            last + n == total,
            s0 <= last + 1,
            t == texts(lines@),
            u == texts(snippet@),
            best is None ==> forall|j: int| j < s0 ==> !matches_at(kind, t, u, j),
            best matches Some((b, sc, ec)) ==> {
                &&& b < s0
                &&& matches_at(kind, t, u, b as int)
                &&& block_match(kind, t, b as int, u) == Some((sc as int, ec as int))
                &&& forall|j: int| j < s0 && #[trigger] matches_at(kind, t, u, j) ==> distance(
                    b + 1,
                    hint_line as int,
                ) < distance(j + 1, hint_line as int) || (distance(b + 1, hint_line as int)
                    == distance(j + 1, hint_line as int) && b <= j)
            },
        decreases last + 1 - s0,
    {
        match block_matches(kind, lines, s0, snippet) {
            Some((sc, ec)) => {
                assert(matches_at(kind, t, u, s0 as int));
                let dist = abs_diff(s0 + 1, hint_line);
                let closer = match best {
                    Some((b, _, _)) => dist < abs_diff(b + 1, hint_line),
                    None => true,
                };
                if closer {
                    best = Some((s0, sc, ec));
                }
            },
            None => {},
        }
        s0 += 1;
    }
    match best {
        Some((b, sc, ec)) => {
            proof {
                assert(is_nearest(kind, t, u, hint_line as int, b as int));
                let c = choose|s0: int| is_nearest(kind, t, u, hint_line as int, s0);
                lemma_nearest_unique(kind, t, u, hint_line as int, b as int, c);
            }
            Some((b + 1, sc, b + n, ec))
        },
        None => {
            assert forall|j: int| !matches_at(kind, t, u, j) by {}
            None
        },
    }
}

fn abs_diff(a: usize, b: usize) -> (r: usize)
    ensures
        r == distance(a as int, b as int),
{
    if a <= b {
        b - a
    } else {
        a - b
    }
}

// ---- Notes -------------------------------------------------------------------

/// A single anchored note.
#[derive(Clone, Debug)]
pub struct Note {
    pub id: u64,
    pub kind: SelKind,
    pub start_line: usize,
    pub start_col: usize,
    pub end_line: usize,
    pub end_col: usize,
    /// The comment.
    pub text: String,
    /// The selected text, line by line, used to re-anchor on refresh.
    pub snippet: Vec<String>,
    /// ISO-8601 UTC timestamp when the note was created, e.g. `2026-07-13T10:04:00Z`.
    pub created_at: String,
}

/// What a note says and where.
#[verifier::ext_equal]
pub struct NoteModel {
    pub id: u64,
    pub kind: SelKind,
    pub start: Position,
    pub end: Position,
    pub text: Seq<char>,
    pub snippet: Seq<Seq<char>>,
    pub created_at: Seq<char>,
}

impl View for Note {
    type V = NoteModel;

    open spec fn view(&self) -> NoteModel {
        NoteModel {
            id: self.id,
            kind: self.kind,
            start: (self.start_line, self.start_col),
            end: (self.end_line, self.end_col),
            text: self.text@,
            snippet: texts(self.snippet@),
            created_at: self.created_at@,
        }
    }
}

/// What the notes of a list say.
pub open spec fn models(v: Seq<Note>) -> Seq<NoteModel> {
    v.map_values(|n: Note| n@)
}

impl NoteModel {
    /// Whether the note covers `(line, col)`.
    pub open spec fn covers(self, line: usize, col: usize) -> bool {
        covers(self.kind, self.start, self.end, line, col)
    }

    /// The note at other coordinates.
    pub open spec fn moved_to(self, start: Position, end: Position) -> NoteModel {
        NoteModel { start, end, ..self }
    }

    /// Whether the note's snippet sits at its coordinates in `lines`.
    pub open spec fn in_place(self, lines: Seq<Seq<char>>) -> bool {
        covered_text(self.kind, lines, self.start, self.end) == Some(self.snippet)
    }

    /// The note as it stands against `lines`: where it is if its snippet is
    /// still there, else where the snippet is found nearest, if anywhere.
    pub open spec fn revalidated(self, lines: Seq<Seq<char>>) -> Option<NoteModel> {
        if self.in_place(lines) {
            Some(self)
        } else {
            match relocated(self.kind, lines, self.snippet, self.start.0 as int) {
                Some((start, end)) => Some(self.moved_to(start, end)),
                None => None,
            }
        }
    }
}

impl Note {
    /// Builds a note from a selection over `lines` (already tab-expanded), with
    /// its id and time of creation given. The coordinates are put in reading
    /// order. Returns `None` if the selection does not resolve to any text.
    pub fn anchored(
        kind: SelKind,
        a: Position,
        b: Position,
        text: String,
        lines: &[String],
        id: u64,
        created_at: String,
    ) -> (r: Option<Note>)
        ensures
            r is Some <==> covered_text(kind, texts(lines@), in_order(a, b).0, in_order(a, b).1) is Some,
            r matches Some(n) ==> n@ == (NoteModel {
                id,
                kind,
                start: in_order(a, b).0,
                end: in_order(a, b).1,
                text: text@,
                snippet: covered_text(
                    kind,
                    texts(lines@),
                    in_order(a, b).0,
                    in_order(a, b).1,
                ).unwrap(),
                created_at: created_at@,
            }),
    {
        let (s, e) = ordered(a, b);
        match slice(kind, lines, s.0, s.1, e.0, e.1) {
            Some(snippet) => Some(
                Note {
                    id,
                    kind,
                    start_line: s.0,
                    start_col: s.1,
                    end_line: e.0,
                    end_col: e.1,
                    text,
                    snippet,
                    created_at,
                },
            ),
            None => None,
        }
    }

    /// Builds a note from a selection over `lines` (already tab-expanded), made
    /// now. Coordinates are normalized so start precedes end. Returns `None` if
    /// the selection does not resolve to any text. Nothing is promised of the id,
    /// which comes from the clock.
    pub fn new(kind: SelKind, a: Position, b: Position, text: String, lines: &[String]) -> (r: Option<Note>)
        ensures
            r is Some <==> covered_text(kind, texts(lines@), in_order(a, b).0, in_order(a, b).1) is Some,
            r matches Some(n) ==> n@ == (NoteModel {
                id: n.id,
                kind,
                start: in_order(a, b).0,
                end: in_order(a, b).1,
                text: text@,
                snippet: covered_text(
                    kind,
                    texts(lines@),
                    in_order(a, b).0,
                    in_order(a, b).1,
                ).unwrap(),
                created_at: n.created_at@,
            }),
            r matches Some(n) ==> is_timestamp(n.created_at@),
    {
        Note::anchored(kind, a, b, text, lines, unique_id(), now_iso8601())
    }

    /// A copy of the note.
    pub fn copy(&self) -> (r: Note)
        ensures
            r@ == self@,
    {
        Note {
            id: self.id,
            kind: self.kind,
            start_line: self.start_line,
            start_col: self.start_col,
            end_line: self.end_line,
            end_col: self.end_col,
            text: self.text.clone(),
            snippet: copy_strings(self.snippet.as_slice()),
            created_at: self.created_at.clone(),
        }
    }

    /// Whether `(line, col)` (1-based line, 0-based col) falls inside this note.
    pub fn contains(&self, line: usize, col: usize) -> (r: bool)
        ensures
            r == self@.covers(line, col),
    {
        is_covered(
            self.kind,
            (self.start_line, self.start_col),
            (self.end_line, self.end_col),
            line,
            col,
        )
    }
}

/// A note's anchor coordinates, for detecting whether re-anchoring moved it.
pub fn coords(n: &Note) -> (r: (usize, usize, usize, usize))
    ensures
        ((r.0, r.1), (r.2, r.3)) == (n@.start, n@.end),
{
    (n.start_line, n.start_col, n.end_line, n.end_col)
}

/// Whether two lists of strings hold the same texts.
fn same_strings(a: &[String], b: &[String]) -> (r: bool)
    ensures
        r == (texts(a@) == texts(b@)),
{
    if a.len() != b.len() {
        assert(texts(a@).len() != texts(b@).len());
        return false;
    }
    assert(texts(a@).subrange(0, a@.len() as int) =~= texts(a@));
    assert(texts(b@).subrange(0, a@.len() as int) =~= texts(b@));
    same_lines(a, 0, b, 0, a.len())
}

/// Re-anchors `note` against the current `lines`. Returns `false` if the note's
/// text is gone and it should be dropped.
pub fn revalidate(note: &mut Note, lines: &[String]) -> (r: bool)
    ensures
        r == (old(note)@.revalidated(texts(lines@)) is Some),
        r ==> Some(final(note)@) == old(note)@.revalidated(texts(lines@)),
        !r ==> final(note)@ == old(note)@,
{
    let still_there = match slice(
        note.kind,
        lines,
        note.start_line,
        note.start_col,
        note.end_line,
        note.end_col,
    ) {
        Some(v) => same_strings(v.as_slice(), note.snippet.as_slice()),
        None => false,
    };
    if still_there {
        return true;
    }
    match relocate(note.kind, lines, note.snippet.as_slice(), note.start_line) {
        Some((sl, sc, el, ec)) => {
            note.start_line = sl;
            note.start_col = sc;
            note.end_line = el;
            note.end_col = ec;
            true
        },
        None => false,
    }
}

// ---- What revalidation promises ----------------------------------------------

/// A note whose snippet sits at its coordinates matches there.
proof fn lemma_in_place_matches(n: NoteModel, lines: Seq<Seq<char>>)
    requires
        n.in_place(lines),
    ensures
        n.snippet.len() > 0,
        matches_at(n.kind, lines, n.snippet, n.start.0 - 1),
{
    let s0 = n.start.0 - 1;
    let len = n.snippet.len() as int;
    match n.kind {
        SelKind::Line => {
            assert(lines.subrange(s0, s0 + len) =~= n.snippet);
        },
        SelKind::Char => {
            if n.start.0 == n.end.0 {
                if n.snippet[0].len() > 0 {
                    lemma_first_occurrence(lines[s0], n.snippet[0], 0);
                    assert(occurs_at(lines[s0], n.snippet[0], n.start.1 as int));
                }
            } else {
                assert(lines[s0].skip(lines[s0].len() - n.snippet[0].len()) =~= n.snippet[0]);
                assert(lines.subrange(s0 + 1, s0 + len - 1) =~= n.snippet.subrange(1, len - 1));
                let last = lines[s0 + len - 1];
                assert(last.take(n.snippet[len - 1].len() as int) =~= n.snippet[len - 1]);
            }
        },
    }
}

/// A note is dropped when, and only when, its snippet matches nowhere.
pub proof fn dropped_iff_gone(n: NoteModel, lines: Seq<Seq<char>>)
    requires
        n.snippet.len() > 0,
    ensures
        n.revalidated(lines) is None <==> forall|s0: int| !matches_at(n.kind, lines, n.snippet, s0),
{
    if n.in_place(lines) {
        lemma_in_place_matches(n, lines);
    }
}

/// A note taken over a file is in place in that file, so that a refresh which
/// finds the file unchanged leaves the note as it is.
pub proof fn fresh_note_stays(n: NoteModel, lines: Seq<Seq<char>>)
    requires
        covered_text(n.kind, lines, n.start, n.end) == Some(n.snippet),
    ensures
        n.revalidated(lines) == Some(n),
{
}

/// Revalidation moves a note and changes nothing else about it.
pub proof fn revalidation_keeps_the_note(n: NoteModel, lines: Seq<Seq<char>>)
    requires
        n.revalidated(lines) is Some,
    ensures
        ({
            let m = n.revalidated(lines).unwrap();
            m == n.moved_to(m.start, m.end)
        }),
{
}

/// A note that has been revalidated stays where it is when it is revalidated
/// again against the same lines.
pub proof fn revalidation_is_stable(n: NoteModel, lines: Seq<Seq<char>>)
    requires
        lines.len() <= usize::MAX,
        n.revalidated(lines) is Some,
    ensures
        n.revalidated(lines).unwrap().revalidated(lines) == n.revalidated(lines),
{
    let m = n.revalidated(lines).unwrap();
    if !n.in_place(lines) {
        let hint = n.start.0 as int;
        lemma_nearest_exists(n.kind, lines, n.snippet, hint);
        let s0 = choose|s0: int| is_nearest(n.kind, lines, n.snippet, hint, s0);
        assert(m.start.0 == s0 + 1);
        if !m.in_place(lines) {
            let hint = m.start.0 as int;
            assert(is_nearest(n.kind, lines, n.snippet, hint, s0));
            let c = choose|c: int| is_nearest(n.kind, lines, n.snippet, hint, c);
            lemma_nearest_unique(n.kind, lines, n.snippet, hint, s0, c);
        }
    }
}

/// A note that has been revalidated covers its snippet, and nothing else.
pub proof fn revalidated_note_covers_its_snippet(n: NoteModel, lines: Seq<Seq<char>>)
    requires
        lines.len() <= usize::MAX,
        forall|i: int| 0 <= i < lines.len() ==> (#[trigger] lines[i]).len() <= usize::MAX,
        n.revalidated(lines) is Some,
    ensures
        n.revalidated(lines).unwrap().in_place(lines),
{
    let m = n.revalidated(lines).unwrap();
    if !n.in_place(lines) {
        let hint = n.start.0 as int;
        lemma_nearest_exists(n.kind, lines, n.snippet, hint);
        let s0 = choose|s0: int| is_nearest(n.kind, lines, n.snippet, hint, s0);
        let len = n.snippet.len() as int;
        assert(m.start.0 == s0 + 1 && m.end.0 == s0 + len);
        match n.kind {
            SelKind::Line => {
                assert(lines.subrange(s0, s0 + len) == n.snippet);
            },
            SelKind::Char => {
                if len == 1 {
                    if n.snippet[0].len() > 0 {
                        lemma_first_occurrence(lines[s0], n.snippet[0], 0);
                        let (sc, ec) = block_match(n.kind, lines, s0, n.snippet).unwrap();
                        assert(lines[s0].len() <= usize::MAX);
                        assert(m.start.1 == sc && m.end.1 == ec);
                        assert(lines[s0].subrange(sc, ec + 1) =~= n.snippet[0]);
                    } else {
                        assert(n.snippet[0] =~= Seq::empty());
                    }
                    assert(covered_text(m.kind, lines, m.start, m.end).unwrap() =~= n.snippet);
                } else {
                    let last = lines[s0 + len - 1];
                    assert(n.snippet =~= seq![n.snippet[0]] + n.snippet.subrange(1, len - 1)
                        + seq![n.snippet[len - 1]]);
                    assert(head_of(last, m.end.1 as int) == Some(n.snippet[len - 1]));
                    assert(lines[s0].skip(m.start.1 as int) == n.snippet[0]);
                    assert(covered_text(m.kind, lines, m.start, m.end).unwrap() =~= n.snippet);
                }
            },
        }
    }
}

/// A note that matches a file still matches after lines are added before and
/// after: it is re-anchored, not dropped.
pub proof fn note_follows_its_text(
    n: NoteModel,
    pre: Seq<Seq<char>>,
    lines: Seq<Seq<char>>,
    post: Seq<Seq<char>>,
)
    requires
        n.snippet.len() > 0,
        n.revalidated(lines) is Some,
    ensures
        n.revalidated(pre + lines + post) is Some,
{
    dropped_iff_gone(n, lines);
    let s0 = choose|s0: int| matches_at(n.kind, lines, n.snippet, s0);
    let all = pre + lines + post;
    let t0 = s0 + pre.len();
    let len = n.snippet.len() as int;
    assert(all.subrange(t0, t0 + len) =~= lines.subrange(s0, s0 + len));
    if len > 1 {
        assert(all.subrange(t0 + 1, t0 + len - 1) =~= lines.subrange(s0 + 1, s0 + len - 1));
    }
    assert(all[t0] == lines[s0]);
    assert(all[t0 + len - 1] == lines[s0 + len - 1]);
    assert(matches_at(n.kind, all, n.snippet, t0));
    dropped_iff_gone(n, all);
}

/// Whether the selection from `(line, sc)` to column `ec` of the last line is over
/// `snippet`.
pub open spec fn stands_at(
    kind: SelKind,
    lines: Seq<Seq<char>>,
    snippet: Seq<Seq<char>>,
    line: usize,
    sc: usize,
    ec: usize,
) -> bool {
    line + snippet.len() <= usize::MAX + 1 && covered_text(
        kind,
        lines,
        (line, sc),
        ((line + snippet.len() - 1) as usize, ec),
    ) == Some(snippet)
}

/// Text that a selection is over matches there.
proof fn lemma_standing_matches(
    kind: SelKind,
    lines: Seq<Seq<char>>,
    snippet: Seq<Seq<char>>,
    line: usize,
    sc: usize,
    ec: usize,
)
    requires
        snippet.len() > 0,
        stands_at(kind, lines, snippet, line, sc, ec),
    ensures
        matches_at(kind, lines, snippet, line - 1),
        kind == SelKind::Char ==> block_match(kind, lines, line - 1, snippet).unwrap().0 <= sc,
{
    let last = (line + snippet.len() - 1) as usize;
    let n = NoteModel {
        id: 0,
        kind,
        start: (line, sc),
        end: (last, ec),
        text: Seq::empty(),
        snippet,
        created_at: Seq::empty(),
    };
    lemma_in_place_matches(n, lines);
    if kind == SelKind::Char {
        let hay = lines[line - 1];
        if snippet.len() == 1 {
            if snippet[0].len() > 0 {
                lemma_first_occurrence(hay, snippet[0], 0);
                assert(hay.subrange(sc as int, sc + snippet[0].len()) =~= snippet[0]);
                assert(occurs_at(hay, snippet[0], sc as int));
            }
        } else {
            assert(snippet[0] == hay.skip(sc as int));
        }
    }
}

/// A note whose text is no longer where it was goes to where its text stands
/// nearest to its old line, to the earlier place of two that are equally near, and
/// on that line to the first place. It is dropped just if its text stands nowhere.
pub proof fn note_goes_to_the_nearest_text(n: NoteModel, lines: Seq<Seq<char>>)
    requires
        lines.len() <= usize::MAX,
        forall|i: int| 0 <= i < lines.len() ==> (#[trigger] lines[i]).len() <= usize::MAX,
        n.snippet.len() > 0,
        covered_text(n.kind, lines, n.start, n.end) != Some(n.snippet),
    ensures
        n.revalidated(lines) is None <==> forall|line: usize, sc: usize, ec: usize|
            !stands_at(n.kind, lines, n.snippet, line, sc, ec),
        n.revalidated(lines) matches Some(m) ==> {
            let (old, l) = (n.start.0 as int, m.start.0 as int);
            &&& stands_at(n.kind, lines, n.snippet, m.start.0, m.start.1, m.end.1)
            &&& m.end.0 == l + n.snippet.len() - 1
            &&& forall|line: usize, sc: usize, ec: usize| #[trigger]
                stands_at(n.kind, lines, n.snippet, line, sc, ec) ==> {
                    &&& l <= old ==> line <= l || line >= 2 * old - l
                    &&& l > old ==> line >= l || line < 2 * old - l
                    &&& line == l && n.kind == SelKind::Char ==> m.start.1 <= sc
                }
        },
{
    dropped_iff_gone(n, lines);
    if let Some(m) = n.revalidated(lines) {
        revalidated_note_covers_its_snippet(n, lines);
        let hint = n.start.0 as int;
        lemma_nearest_exists(n.kind, lines, n.snippet, hint);
        let s0 = choose|s0: int| is_nearest(n.kind, lines, n.snippet, hint, s0);
        assert(m.start.0 == s0 + 1 && m.end.0 == s0 + n.snippet.len());
        assert(stands_at(n.kind, lines, n.snippet, m.start.0, m.start.1, m.end.1));
        let (old, l) = (n.start.0 as int, m.start.0 as int);
        assert(lines[s0].len() <= usize::MAX);
        let first = block_match(n.kind, lines, s0, n.snippet).unwrap().0;
        assert(m.start.1 == first as usize);
        if n.kind == SelKind::Char && n.snippet.len() == 1 {
            lemma_first_occurrence(lines[s0], n.snippet[0], 0);
        }
        assert(0 <= first <= lines[s0].len());
        assert forall|line: usize, sc: usize, ec: usize| #[trigger]
            stands_at(n.kind, lines, n.snippet, line, sc, ec) implies {
            &&& l <= old ==> line <= l || line >= 2 * old - l
            &&& l > old ==> line >= l || line < 2 * old - l
            &&& line == l && n.kind == SelKind::Char ==> m.start.1 <= sc
        } by {
            lemma_standing_matches(n.kind, lines, n.snippet, line, sc, ec);
            assert(matches_at(n.kind, lines, n.snippet, line - 1));
        }
    } else {
        assert forall|line: usize, sc: usize, ec: usize| !stands_at(n.kind, lines, n.snippet, line, sc, ec) by {
            if stands_at(n.kind, lines, n.snippet, line, sc, ec) {
                lemma_standing_matches(n.kind, lines, n.snippet, line, sc, ec);
            }
        }
    }
}

/// Lines that are added above the text of a note move the note down by as many
/// lines, as long as the same text stands nowhere else as near.
pub proof fn note_moves_with_its_text(n: NoteModel, pre: Seq<Seq<char>>, lines: Seq<Seq<char>>)
    requires
        pre.len() + lines.len() <= usize::MAX,
        forall|i: int| 0 <= i < pre.len() ==> (#[trigger] pre[i]).len() <= usize::MAX,
        forall|i: int| 0 <= i < lines.len() ==> (#[trigger] lines[i]).len() <= usize::MAX,
        covered_text(n.kind, lines, n.start, n.end) == Some(n.snippet),
        forall|line: usize, sc: usize, ec: usize| #[trigger]
            stands_at(n.kind, pre + lines, n.snippet, line, sc, ec) && n.start.0 - pre.len() <= line
                <= n.start.0 + pre.len() ==> line == n.start.0 + pre.len(),
    ensures
        n.revalidated(pre + lines) is Some,
        n.revalidated(pre + lines).unwrap().start.0 == n.start.0 + pre.len(),
        n.revalidated(pre + lines).unwrap().end.0 == n.end.0 + pre.len(),
{
    let all = pre + lines;
    let k = pre.len() as int;
    assert forall|i: int| 0 <= i < all.len() implies (#[trigger] all[i]).len() <= usize::MAX by {
        if i < k {
            assert(all[i] == pre[i]);
        } else {
            assert(all[i] == lines[i - k]);
        }
    }
    let (sl, el) = (n.start.0 as int, n.end.0 as int);
    assert(all[sl - 1 + k] == lines[sl - 1]);
    assert(all[el - 1 + k] == lines[el - 1]);
    assert(all.subrange(sl - 1 + k, el + k) =~= lines.subrange(sl - 1, el));
    if sl < el {
        assert(all.subrange(sl + k, el - 1 + k) =~= lines.subrange(sl, el - 1));
    }
    assert(n.snippet.len() == el - sl + 1);
    let there = (sl + k) as usize;
    assert(stands_at(n.kind, all, n.snippet, there, n.start.1, n.end.1));
    if k == 0 {
        assert(all =~= lines);
    } else if covered_text(n.kind, all, n.start, n.end) == Some(n.snippet) {
        assert(stands_at(n.kind, all, n.snippet, n.start.0, n.start.1, n.end.1));
    } else {
        note_goes_to_the_nearest_text(n, all);
        let m = n.revalidated(all).unwrap();
        assert(stands_at(n.kind, all, n.snippet, m.start.0, m.start.1, m.end.1));
    }
}

// ---- Selections --------------------------------------------------------------

/// `p` with its column brought back to a character of its line (the cursor may
/// rest just past the last one).
pub open spec fn on_character(lines: Seq<Seq<char>>, p: Position) -> Position {
    let i = if p.0 == 0 { 0int } else { p.0 - 1 };
    if i < lines.len() && lines[i].len() > 0 {
        if p.1 < lines[i].len() {
            p
        } else {
            (p.0, (lines[i].len() - 1) as usize)
        }
    } else {
        (p.0, 0)
    }
}

/// `p` with its column brought back to a character of its line.
pub fn clamp_to_character(lines: &[String], p: Position) -> (r: Position)
    ensures
        r == on_character(texts(lines@), p),
{
    let i = if p.0 == 0 {
        0
    } else {
        p.0 - 1
    };
    if i < lines.len() {
        let line = chars_of(lines[i].as_str());
        if line.len() == 0 {
            (p.0, 0)
        } else if p.1 < line.len() {
            p
        } else {
            (p.0, line.len() - 1)
        }
    } else {
        (p.0, 0)
    }
}

/// The two ends of a selection in reading order, on characters of their lines
/// if the selection is of characters.
pub open spec fn selection_ends(
    kind: SelKind,
    a: Position,
    b: Position,
    lines: Seq<Seq<char>>,
) -> (Position, Position) {
    let (s, e) = in_order(a, b);
    match kind {
        SelKind::Char => (on_character(lines, s), on_character(lines, e)),
        SelKind::Line => (s, e),
    }
}

/// The text a selection covers, its lines joined by newlines.
pub open spec fn selected_text(
    kind: SelKind,
    a: Position,
    b: Position,
    lines: Seq<Seq<char>>,
) -> Option<Seq<char>> {
    let (s, e) = selection_ends(kind, a, b, lines);
    match covered_text(kind, lines, s, e) {
        Some(v) => Some(joined(v, seq!['\n'])),
        None => None,
    }
}

/// The text a selection covers, joined by newlines. Character columns are
/// clamped to real characters. Used to mirror a live selection to the clipboard.
pub fn selection_text(kind: SelKind, a: Position, b: Position, lines: &[String]) -> (r: Option<String>)
    ensures
        r is Some <==> selected_text(kind, a, b, texts(lines@)) is Some,
        r matches Some(t) ==> selected_text(kind, a, b, texts(lines@)) == Some(t@),
{
    let (mut s, mut e) = ordered(a, b);
    match kind {
        SelKind::Char => {
            s = clamp_to_character(lines, s);
            e = clamp_to_character(lines, e);
        },
        SelKind::Line => {},
    }
    match slice(kind, lines, s.0, s.1, e.0, e.1) {
        Some(v) => {
            proof {
                reveal_strlit("\n");
                assert("\n"@ =~= seq!['\n']);
            }
            Some(join(v.as_slice(), "\n"))
        },
        None => None,
    }
}

/// A selection between two lines of the file covers some text, wherever on
/// those lines it starts and ends.
pub proof fn selection_in_file_resolves(kind: SelKind, a: Position, b: Position, lines: Seq<Seq<char>>)
    requires
        1 <= a.0 <= lines.len(),
        1 <= b.0 <= lines.len(),
        forall|i: int| 0 <= i < lines.len() ==> (#[trigger] lines[i]).len() <= usize::MAX,
    ensures
        selected_text(kind, a, b, lines) is Some,
{
    let (s, e) = selection_ends(kind, a, b, lines);
    assert(lines[s.0 - 1].len() <= usize::MAX);
    assert(lines[e.0 - 1].len() <= usize::MAX);
}

/// Two parts of a text, line by line, as one: the last line of the first goes on in
/// the first line of the second.
pub open spec fn continued(a: Seq<Seq<char>>, b: Seq<Seq<char>>) -> Seq<Seq<char>> {
    a.drop_last() + seq![a.last() + b[0]] + b.skip(1)
}

/// A selection is what stands between its ends. With what comes before the first
/// character and what comes after the last one it makes up the file, and it starts
/// and ends at the given columns.
pub proof fn selection_is_what_stands_between(lines: Seq<Seq<char>>, s: Position, e: Position)
    requires
        1 <= s.0 <= e.0 <= lines.len(),
        s.0 == e.0 ==> s.1 <= e.1,
        s.1 <= lines[s.0 - 1].len(),
        e.1 < lines[e.0 - 1].len(),
    ensures
        covered_text(SelKind::Char, lines, s, e) matches Some(v) && {
            let before = lines.take(s.0 - 1).push(lines[s.0 - 1].take(s.1 as int));
            let after = seq![lines[e.0 - 1].skip(e.1 + 1)] + lines.skip(e.0 as int);
            &&& v.len() == e.0 - s.0 + 1
            &&& continued(before, continued(v, after)) == lines
        },
        covered_text(SelKind::Line, lines, s, e) matches Some(v) && lines == lines.take(s.0 - 1) + v + lines.skip(
            e.0 as int,
        ),
{
    let v = covered_text(SelKind::Char, lines, s, e).unwrap();
    let (sl, sc, el, ec) = (s.0 as int, s.1 as int, e.0 as int, e.1 as int);
    let before = lines.take(sl - 1).push(lines[sl - 1].take(sc));
    let after = seq![lines[el - 1].skip(ec + 1)] + lines.skip(el);
    assert(v.len() == el - sl + 1);
    let tail = continued(v, after);
    let all = continued(before, tail);
    assert(before.drop_last() =~= lines.take(sl - 1));
    assert(after.skip(1) =~= lines.skip(el));
    assert(tail.len() == lines.len() - sl + 1);
    assert(all.len() == lines.len());
    assert forall|i: int| 0 <= i < lines.len() implies all[i] == lines[i] by {
        if i < sl - 1 {
        } else if sl == el && i == sl - 1 {
            assert(tail[0] == v[0] + after[0]);
            assert(all[i] =~= lines[i]);
        } else if i == sl - 1 {
            assert(tail[0] == v[0]);
            assert(all[i] =~= lines[i]);
        } else if i < el - 1 {
            assert(all[i] == tail[i - sl + 1]);
            assert(tail[i - sl + 1] == v[i - sl + 1]);
        } else if i == el - 1 {
            assert(all[i] == tail[i - sl + 1]);
            assert(tail[i - sl + 1] == v.last() + after[0]);
            assert(all[i] =~= lines[i]);
        } else {
            assert(all[i] == tail[i - sl + 1]);
        }
    }
    assert(all =~= lines);
    let w = covered_text(SelKind::Line, lines, s, e).unwrap();
    assert(lines =~= lines.take(sl - 1) + w + lines.skip(el));
}

/// A selection of characters covers the positions from its first to its last, and
/// one of lines all columns of its lines. Its ends can be given in either order.
pub proof fn selection_covers_what_is_between(
    kind: SelKind,
    a: Position,
    b: Position,
    line: usize,
    col: usize,
)
    ensures
        in_order(a, b) == in_order(b, a),
        in_order(a, b) == (a, b) || in_order(a, b) == (b, a),
        ({
            let (s, e) = in_order(a, b);
            &&& s.0 < e.0 || (s.0 == e.0 && s.1 <= e.1)
            &&& covers(kind, s, e, line, col) <==> s.0 <= line <= e.0 && (kind == SelKind::Line || ((line == s.0
                ==> s.1 <= col) && (line == e.0 ==> col <= e.1)))
        }),
{
}

/// A selection of characters is taken from character to character: an end behind the
/// last character of a line counts as on it. What is copied are the lines of the
/// selection with newlines between.
pub proof fn selected_text_is_covered(kind: SelKind, a: Position, b: Position, lines: Seq<Seq<char>>)
    requires
        1 <= a.0 <= b.0 <= lines.len(),
        a.0 == b.0 ==> a.1 <= b.1,
        a.1 < lines[a.0 - 1].len(),
        0 < lines[b.0 - 1].len() <= usize::MAX,
    ensures
        ({
            let e: Position = (b.0, if b.1 < lines[b.0 - 1].len() { b.1 } else { (lines[b.0 - 1].len() - 1) as usize });
            let v = covered_text(kind, lines, a, if kind == SelKind::Char { e } else { b });
            selected_text(kind, a, b, lines) == (match v {
                Some(v) => Some(joined(v, seq!['\n'])),
                None => None,
            })
        }),
{
}

// ---- Lines -------------------------------------------------------------------

/// Tabs are expanded to this many spaces, so that a character column maps one to
/// one to a terminal cell.
pub const TAB_WIDTH: usize = 4;

/// `line` with its tabs expanded.
pub open spec fn expanded(line: Seq<char>) -> Seq<char> {
    replaced(line, '\t', Seq::new(TAB_WIDTH as nat, |i: int| ' '))
}

/// The tab-expanded lines of a file.
pub open spec fn canonical_lines(content: Seq<char>) -> Seq<Seq<char>> {
    lines_of(content).map_values(|l: Seq<char>| expanded(l))
}

/// `line` with its tabs expanded.
pub fn expand_tabs(line: &[char]) -> (r: String)
    ensures
        r@ == expanded(line@),
{
    proof {
        reveal_strlit("    ");
        assert("    "@ =~= Seq::new(TAB_WIDTH as nat, |i: int| ' '));
    }
    replace(line, '\t', "    ")
}

/// Splits file `content` into tab-expanded lines for consistent column mapping.
pub fn canon_lines(content: &str) -> (v: Vec<String>)
    ensures
        texts(v@) == canonical_lines(content@),
{
    let chars = chars_of(content);
    let ls = lines(chars.as_slice());
    let mut v: Vec<String> = Vec::new();
    let mut i: usize = 0;
    while i < ls.len()
        invariant
            i <= ls@.len(),
            v@.len() == i,
            forall|j: int| 0 <= j < i ==> (#[trigger] v@[j])@ == expanded(ls@[j]@),
        decreases ls@.len() - i,
    {
        v.push(expand_tabs(ls[i]));
        i += 1;
    }
    proof {
        assert forall|j: int| 0 <= j < v@.len() implies texts(v@)[j] == canonical_lines(content@)[j] by {
            assert(slices(ls@)[j] == ls@[j]@);
        }
        assert(texts(v@) =~= canonical_lines(content@));
    }
    v
}

/// No tab is left in the canonical lines of a file.
pub proof fn canonical_lines_have_no_tab(content: Seq<char>, i: int)
    requires
        0 <= i < canonical_lines(content).len(),
    ensures
        !canonical_lines(content)[i].contains('\t'),
{
    lemma_expanded_has_no_tab(lines_of(content)[i]);
}

proof fn lemma_expanded_has_no_tab(line: Seq<char>)
    ensures
        !expanded(line).contains('\t'),
    decreases line.len(),
{
    if line.len() > 0 {
        lemma_expanded_has_no_tab(line.drop_last());
        let before = expanded(line.drop_last());
        assert forall|j: int| 0 <= j < expanded(line).len() implies expanded(line)[j] != '\t' by {
            if j < before.len() {
                assert(expanded(line)[j] == before[j]);
                assert(before.contains(before[j]));
            }
        }
    }
}

/// Tabs become four spaces each, and nothing else changes; lines are those of the
/// content.
pub proof fn tabs_become_spaces(a: Seq<char>, b: Seq<char>, c: char, content: Seq<char>, i: int)
    requires
        0 <= i < lines_of(content).len(),
    ensures
        expanded(a + b) == expanded(a) + expanded(b),
        expanded(seq!['\t']) == seq![' ', ' ', ' ', ' '],
        c != '\t' ==> expanded(seq![c]) == seq![c],
        canonical_lines(content).len() == lines_of(content).len(),
        canonical_lines(content)[i] == expanded(lines_of(content)[i]),
{
    let by = Seq::new(TAB_WIDTH as nat, |i: int| ' ');
    replacing_acts_on_each(a, b, '\t', by);
    assert(by =~= seq![' ', ' ', ' ', ' ']);
}

/// An end of a selection comes to a character of its line: one behind the last comes to
/// the last, and on an empty line to its start.
pub proof fn ends_come_to_characters(lines: Seq<Seq<char>>, p: Position)
    requires
        1 <= p.0 <= lines.len(),
        lines[p.0 - 1].len() <= usize::MAX,
    ensures
        on_character(lines, p).0 == p.0,
        p.1 < lines[p.0 - 1].len() ==> on_character(lines, p) == p,
        p.1 >= lines[p.0 - 1].len() > 0 ==> on_character(lines, p).1 == lines[p.0 - 1].len() - 1,
        lines[p.0 - 1].len() == 0 ==> on_character(lines, p).1 == 0,
{
}

/// A selection that does not lie in the file has no text: its lines are not there or the
/// wrong way round, it starts behind the end of its first line, or it ends behind the
/// last character of its last line. An empty line is selected by its start.
pub proof fn selection_outside_has_no_text(lines: Seq<Seq<char>>, s: Position, e: Position)
    ensures
        ({
            let chars = covered_text(SelKind::Char, lines, s, e);
            let rows = covered_text(SelKind::Line, lines, s, e);
            &&& rows is Some <==> 1 <= s.0 <= e.0 <= lines.len()
            &&& chars is Some ==> 1 <= s.0 <= e.0 <= lines.len()
            &&& 1 <= s.0 < e.0 <= lines.len() ==> (chars is Some <==> s.1 <= lines[s.0 - 1].len() && (e.1
                < lines[e.0 - 1].len() || (e.1 == 0 && lines[e.0 - 1].len() == 0)))
            &&& 1 <= s.0 == e.0 <= lines.len() ==> (chars is Some <==> (s.1 <= e.1 && e.1 < lines[e.0 - 1].len()) || (s.1
                == 0 && e.1 == 0 && lines[e.0 - 1].len() == 0))
            &&& chars is Some && lines[e.0 - 1].len() == 0 ==> chars.unwrap().last().len() == 0 && chars.unwrap().len()
                == e.0 - s.0 + 1
            &&& chars is Some && s.0 < e.0 ==> chars.unwrap()[0] == lines[s.0 - 1].skip(s.1 as int) && forall|i: int|
                s.0 <= i < e.0 - 1 ==> chars.unwrap()[i - s.0 + 1] == #[trigger] lines[i]
        }),
{
}

}

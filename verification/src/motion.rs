//! Vim-style motions for the cursor of the annotate view.
//!
//! Positions are a line, counted from 1, and a column, counted from 0.
//! Characters split into three classes: blanks, word characters (letters,
//! numbers and `_`) and punctuation.

use crate::notes::{precedes, Position};
use crate::text::{
    alphanumeric, chars_of, lemma_trimmed_start_len, texts, trim, trim_start, trimmed, trimmed_end,
    trimmed_start, white_space,
};
use vstd::prelude::*;

verus! {

// ---- Lines and characters ----------------------------------------------------

/// The line `line`, counted from 1; empty outside of the file.
pub open spec fn line_at(lines: Seq<Seq<char>>, line: int) -> Seq<char> {
    if 1 <= line <= lines.len() { lines[line - 1] } else { Seq::empty() }
}

/// The character at a position, if there is one.
pub open spec fn char_there(lines: Seq<Seq<char>>, p: Position) -> Option<char> {
    let l = line_at(lines, p.0 as int);
    if p.1 < l.len() { Some(l[p.1 as int]) } else { None }
}

/// The class of a character: 0 for blanks and where there is none, 1 for word
/// characters, 2 for punctuation.
pub open spec fn class(c: Option<char>) -> u8 {
    match c {
        Some(c) => if white_space(c) {
            0
        } else if alphanumeric(c) || c == '_' {
            1
        } else {
            2
        },
        None => 0,
    }
}

/// The class of the character at a position.
pub open spec fn class_there(lines: Seq<Seq<char>>, p: Position) -> u8 {
    class(char_there(lines, p))
}

/// Whether the line `line` is empty or all white space.
pub open spec fn blank_line(lines: Seq<Seq<char>>, line: int) -> bool {
    trimmed(line_at(lines, line)).len() == 0
}

/// Whether the line `line` starts a top-level construct: it is not empty and its
/// first character is no white space.
pub open spec fn section_line(lines: Seq<Seq<char>>, line: int) -> bool {
    line_at(lines, line).len() > 0 && !white_space(line_at(lines, line)[0])
}

/// The line `line`, counted from 1; empty outside of the file.
fn line_chars(lines: &[String], line: usize) -> (v: Vec<char>)
    ensures
        v@ == line_at(texts(lines@), line as int),
{
    if line >= 1 && line <= lines.len() {
        assert(texts(lines@)[line - 1] == lines@[line - 1]@);
        chars_of(lines[line - 1].as_str())
    } else {
        Vec::new()
    }
}

/// Character count of `line` (1-based) in `lines`.
pub fn nchars(lines: &[String], line: usize) -> (n: usize)
    ensures
        n == line_at(texts(lines@), line as int).len(),
{
    line_chars(lines, line).len()
}

/// The character at `(line, col)`, if there is one.
pub fn char_at(lines: &[String], line: usize, col: usize) -> (c: Option<char>)
    ensures
        c == char_there(texts(lines@), (line, col)),
{
    let v = line_chars(lines, line);
    if col < v.len() {
        Some(v[col])
    } else {
        None
    }
}

/// 0 = blank/out-of-bounds, 1 = word char, 2 = punctuation.
pub fn class_of(c: Option<char>) -> (r: u8)
    ensures
        r == class(c),
{
    match c {
        Some(c) => if c.is_whitespace() {
            0
        } else if c.is_alphanumeric() || c == '_' {
            1
        } else {
            2
        },
        None => 0,
    }
}

/// Whether `line` (1-based) is empty or all whitespace.
pub fn is_blank(lines: &[String], line: usize) -> (r: bool)
    ensures
        r == blank_line(texts(lines@), line as int),
{
    let v = line_chars(lines, line);
    trim(v.as_slice()).len() == 0
}

/// Whether `line` (1-based) starts a top-level construct (a non-blank line whose
/// first character is not whitespace).
pub fn is_section(lines: &[String], line: usize) -> (r: bool)
    ensures
        r == section_line(texts(lines@), line as int),
{
    let v = line_chars(lines, line);
    v.len() > 0 && !v[0].is_whitespace()
}

// ---- Steps -------------------------------------------------------------------

/// The next position after `p`, rolling onto the next line's start. Positions
/// are machine numbers.
pub open spec fn next_position(lines: Seq<Seq<char>>, p: Position) -> Option<Position> {
    if p.1 + 1 < line_at(lines, p.0 as int).len() && p.1 < usize::MAX {
        Some((p.0, (p.1 + 1) as usize))
    } else if p.0 < lines.len() && p.0 < usize::MAX {
        Some(((p.0 + 1) as usize, 0))
    } else {
        None
    }
}

/// The previous position before `p`, rolling onto the prior line's end.
pub open spec fn previous_position(lines: Seq<Seq<char>>, p: Position) -> Option<Position> {
    if p.1 > 0 {
        Some((p.0, (p.1 - 1) as usize))
    } else if p.0 > 1 {
        let n = line_at(lines, p.0 - 1).len();
        Some(((p.0 - 1) as usize, if n == 0 { 0 } else { (n - 1) as usize }))
    } else {
        None
    }
}

/// The next position after `(line, col)`, rolling onto the next line's start.
pub fn adv(lines: &[String], line: usize, col: usize) -> (r: Option<(usize, usize)>)
    ensures
        r == next_position(texts(lines@), (line, col)),
{
    let n = nchars(lines, line);
    if n > 0 && col < n - 1 {
        Some((line, col + 1))
    } else if line < lines.len() {
        Some((line + 1, 0))
    } else {
        None
    }
}

/// The previous position before `(line, col)`, rolling onto the prior line's end.
pub fn retr(lines: &[String], line: usize, col: usize) -> (r: Option<(usize, usize)>)
    ensures
        r == previous_position(texts(lines@), (line, col)),
{
    if col > 0 {
        Some((line, col - 1))
    } else if line > 1 {
        let n = nchars(lines, line - 1);
        Some((line - 1, if n == 0 {
            0
        } else {
            n - 1
        }))
    } else {
        None
    }
}

// ---- Paragraphs and sections -------------------------------------------------

/// The nearest line at or above `from` that is blank, or that is not, as wanted;
/// the first line if there is none after it.
pub open spec fn paragraph_above(lines: Seq<Seq<char>>, from: int, blank: bool) -> int
    decreases from,
{
    if from <= 1 {
        1
    } else if blank_line(lines, from) == blank {
        from
    } else {
        paragraph_above(lines, from - 1, blank)
    }
}

/// The nearest line at or below `from` that is blank, or that is not, as wanted;
/// the last line if there is none before it.
pub open spec fn paragraph_below(lines: Seq<Seq<char>>, from: int, blank: bool) -> int
    decreases lines.len() - from,
{
    if from >= lines.len() {
        lines.len() as int
    } else if blank_line(lines, from) == blank {
        from
    } else {
        paragraph_below(lines, from + 1, blank)
    }
}

/// The nearest top-level line at or above `from`, else the first line.
pub open spec fn section_above(lines: Seq<Seq<char>>, from: int) -> int
    decreases from,
{
    if from <= 1 {
        1
    } else if section_line(lines, from) {
        from
    } else {
        section_above(lines, from - 1)
    }
}

/// The nearest top-level line at or below `from`, else the last line.
pub open spec fn section_below(lines: Seq<Seq<char>>, from: int) -> int
    decreases lines.len() - from,
{
    if from >= lines.len() {
        if lines.len() == 0 { 1 } else { lines.len() as int }
    } else if section_line(lines, from) {
        from
    } else {
        section_below(lines, from + 1)
    }
}

/// The blank line above the current paragraph, or above the one before if the
/// current line is itself blank; the first line if there is none.
pub open spec fn paragraph_start(lines: Seq<Seq<char>>, line: int) -> int {
    paragraph_above(
        lines,
        if blank_line(lines, line) { paragraph_above(lines, line - 1, false) } else { line - 1 },
        true,
    )
}

/// The blank line below the current paragraph, or below the next one if the
/// current line is itself blank; the last line if there is none.
pub open spec fn paragraph_end(lines: Seq<Seq<char>>, line: int) -> int {
    if lines.len() == 0 {
        1
    } else {
        paragraph_below(
            lines,
            if blank_line(lines, line) { paragraph_below(lines, line + 1, false) } else { line + 1 },
            true,
        )
    }
}

/// `{` — the blank line above the current paragraph (or the first line).
pub fn para_back(lines: &[String], line: usize) -> (r: usize)
    ensures
        r == paragraph_start(texts(lines@), line as int),
{
    let mut l: usize = if line > 1 {
        line - 1
    } else {
        1
    };
    let ghost t = texts(lines@);
    if is_blank(lines, line) {
        while l > 1 && is_blank(lines, l)
            invariant
                t == texts(lines@),
                l >= 1,
                paragraph_above(t, line - 1, false) == paragraph_above(t, l as int, false),
            decreases l,
        {
            l -= 1;
        }
        assert(l == paragraph_above(t, line - 1, false));
    }
    let ghost first = l;
    while l > 1 && !is_blank(lines, l)
        invariant
            t == texts(lines@),
            l >= 1,
            paragraph_above(t, first as int, true) == paragraph_above(t, l as int, true),
        decreases l,
    {
        l -= 1;
    }
    l
}

/// `}` — the blank line below the current paragraph (or the last line).
pub fn para_fwd(lines: &[String], line: usize) -> (r: usize)
    ensures
        r == paragraph_end(texts(lines@), line as int),
{
    let n = lines.len();
    if n == 0 {
        return 1;
    }
    let mut l: usize = if line < n {
        line + 1
    } else {
        n
    };
    let ghost t = texts(lines@);
    if is_blank(lines, line) {
        while l < n && is_blank(lines, l)
            invariant
                t == texts(lines@),
                l <= n == lines@.len(),
                paragraph_below(t, line + 1, false) == paragraph_below(t, l as int, false),
            decreases n - l,
        {
            l += 1;
        }
        assert(l == paragraph_below(t, line + 1, false));
    }
    let ghost first = l;
    while l < n && !is_blank(lines, l)
        invariant
            t == texts(lines@),
            l <= n == lines@.len(),
            paragraph_below(t, first as int, true) == paragraph_below(t, l as int, true),
        decreases n - l,
    {
        l += 1;
    }
    l
}

/// `[` — the previous top-level (unindented) line, or the first line.
pub fn section_back(lines: &[String], line: usize) -> (r: usize)
    ensures
        r == section_above(texts(lines@), line - 1),
{
    let mut l: usize = if line > 1 {
        line - 1
    } else {
        1
    };
    let ghost t = texts(lines@);
    while l > 1
        invariant
            t == texts(lines@),
            l >= 1,
            section_above(t, line - 1) == section_above(t, l as int),
        decreases l,
    {
        if is_section(lines, l) {
            return l;
        }
        l -= 1;
    }
    1
}

/// `]` — the next top-level (unindented) line, or the last line.
pub fn section_fwd(lines: &[String], line: usize) -> (r: usize)
    ensures
        r == section_below(texts(lines@), line + 1),
{
    let n: usize = if lines.len() == 0 {
        1
    } else {
        lines.len()
    };
    if line >= n {
        return n;
    }
    let mut l: usize = line + 1;
    let ghost t = texts(lines@);
    while l < n
        invariant
            t == texts(lines@),
            l <= n,
            n == (if lines@.len() == 0 { 1 } else { lines@.len() }),
            section_below(t, line + 1) == section_below(t, l as int),
        decreases n - l,
    {
        if is_section(lines, l) {
            return l;
        }
        l += 1;
    }
    n
}

/// The column of the first character of `l` that is no white space; 0 if there
/// is none.
pub open spec fn indent(l: Seq<char>) -> int {
    let n = l.len() - trimmed_start(l).len();
    if n < l.len() { n } else { 0 }
}

/// Column of the first non-blank character on `line`, or 0.
pub fn first_nonblank(lines: &[String], line: usize) -> (r: usize)
    ensures
        r == indent(line_at(texts(lines@), line as int)),
{
    let v = line_chars(lines, line);
    proof {
        lemma_trimmed_start_len(v@);
    }
    let n = v.len() - trim_start(v.as_slice()).len();
    if n < v.len() {
        n
    } else {
        0
    }
}

// ---- Words -------------------------------------------------------------------

/// The first position at or after `p` that is not blank; the last position if
/// there is none.
pub open spec fn past_blanks(lines: Seq<Seq<char>>, p: Position) -> Position
    decreases lines.len() - p.0, line_at(lines, p.0 as int).len() - p.1,
{
    if class_there(lines, p) != 0 {
        p
    } else {
        match next_position(lines, p) {
            Some(q) => past_blanks(lines, q),
            None => p,
        }
    }
}

/// The last position at or before `p` that is not blank; the first position if
/// there is none.
pub open spec fn before_blanks(lines: Seq<Seq<char>>, p: Position) -> Position
    decreases p.0, p.1,
{
    if class_there(lines, p) != 0 {
        p
    } else {
        match previous_position(lines, p) {
            Some(q) => before_blanks(lines, q),
            None => p,
        }
    }
}

/// The first position at or after `p` that is not in a run of the class `c` on the
/// line `line`: the end of a line ends a run. The last position if there is none.
pub open spec fn past_run(lines: Seq<Seq<char>>, p: Position, line: usize, c: u8) -> Position
    decreases lines.len() - p.0, line_at(lines, p.0 as int).len() - p.1,
{
    if p.0 != line || class_there(lines, p) != c {
        p
    } else {
        match next_position(lines, p) {
            Some(q) => past_run(lines, q, line, c),
            None => p,
        }
    }
}

/// The end of the run of the class `c` that `p` is in. A run does not go on to the
/// next line.
pub open spec fn run_end(lines: Seq<Seq<char>>, p: Position, c: u8) -> Position
    decreases lines.len() - p.0, line_at(lines, p.0 as int).len() - p.1,
{
    match next_position(lines, p) {
        Some(q) => if q.0 == p.0 && class_there(lines, q) == c { run_end(lines, q, c) } else { p },
        None => p,
    }
}

/// The start of the run of the class `c` that `p` is in. A run does not come from
/// the line before.
pub open spec fn run_start(lines: Seq<Seq<char>>, p: Position, c: u8) -> Position
    decreases p.0, p.1,
{
    match previous_position(lines, p) {
        Some(q) => if q.0 == p.0 && class_there(lines, q) == c { run_start(lines, q, c) } else { p },
        None => p,
    }
}

/// The start of the next word: past the rest of the current one and past any
/// blanks.
pub open spec fn next_word(lines: Seq<Seq<char>>, p: Position) -> Position {
    match next_position(lines, p) {
        Some(q) => {
            let c = class_there(lines, p);
            past_blanks(lines, if c != 0 { past_run(lines, q, p.0, c) } else { q })
        },
        None => p,
    }
}

/// The start of the current or previous word: before any blanks, the start of
/// the run there.
pub open spec fn previous_word(lines: Seq<Seq<char>>, p: Position) -> Position {
    match previous_position(lines, p) {
        Some(q) => {
            let r = before_blanks(lines, q);
            run_start(lines, r, class_there(lines, r))
        },
        None => p,
    }
}

/// The end of the current or next word: past any blanks, the end of the run
/// there.
pub open spec fn word_last(lines: Seq<Seq<char>>, p: Position) -> Position {
    match next_position(lines, p) {
        Some(q) => {
            let r = past_blanks(lines, q);
            run_end(lines, r, class_there(lines, r))
        },
        None => p,
    }
}

fn skip_blanks(lines: &[String], from: Position) -> (r: Position)
    ensures
        r == past_blanks(texts(lines@), from),
{
    let mut p = from;
    let ghost t = texts(lines@);
    while class_of(char_at(lines, p.0, p.1)) == 0
        invariant
            t == texts(lines@),
            past_blanks(t, from) == past_blanks(t, p),
        decreases t.len() - p.0, line_at(t, p.0 as int).len() - p.1,
    {
        match adv(lines, p.0, p.1) {
            Some(x) => {
                p = x;
            },
            None => {
                return p;
            },
        }
    }
    p
}

fn skip_blanks_back(lines: &[String], from: Position) -> (r: Position)
    ensures
        r == before_blanks(texts(lines@), from),
{
    let mut p = from;
    let ghost t = texts(lines@);
    while class_of(char_at(lines, p.0, p.1)) == 0
        invariant
            t == texts(lines@),
            before_blanks(t, from) == before_blanks(t, p),
        decreases p.0, p.1,
    {
        match retr(lines, p.0, p.1) {
            Some(x) => {
                p = x;
            },
            None => {
                return p;
            },
        }
    }
    p
}

fn skip_run(lines: &[String], from: Position, line: usize, c: u8) -> (r: Position)
    ensures
        r == past_run(texts(lines@), from, line, c),
{
    let mut p = from;
    let ghost t = texts(lines@);
    while p.0 == line && class_of(char_at(lines, p.0, p.1)) == c
        invariant
            t == texts(lines@),
            past_run(t, from, line, c) == past_run(t, p, line, c),
        decreases t.len() - p.0, line_at(t, p.0 as int).len() - p.1,
    {
        match adv(lines, p.0, p.1) {
            Some(x) => {
                p = x;
            },
            None => {
                return p;
            },
        }
    }
    p
}

fn last_of_run(lines: &[String], from: Position, c: u8) -> (r: Position)
    ensures
        r == run_end(texts(lines@), from, c),
{
    let mut p = from;
    let ghost t = texts(lines@);
    loop
        invariant
            t == texts(lines@),
            run_end(t, from, c) == run_end(t, p, c),
        decreases t.len() - p.0, line_at(t, p.0 as int).len() - p.1,
    {
        match adv(lines, p.0, p.1) {
            Some(next) => {
                if next.0 != p.0 || class_of(char_at(lines, next.0, next.1)) != c {
                    return p;
                }
                p = next;
            },
            None => {
                return p;
            },
        }
    }
}

fn first_of_run(lines: &[String], from: Position, c: u8) -> (r: Position)
    ensures
        r == run_start(texts(lines@), from, c),
{
    let mut p = from;
    let ghost t = texts(lines@);
    loop
        invariant
            t == texts(lines@),
            run_start(t, from, c) == run_start(t, p, c),
        decreases p.0, p.1,
    {
        match retr(lines, p.0, p.1) {
            Some(previous) => {
                if previous.0 != p.0 || class_of(char_at(lines, previous.0, previous.1)) != c {
                    return p;
                }
                p = previous;
            },
            None => {
                return p;
            },
        }
    }
}

/// `w` — start of the next word.
pub fn word_forward(lines: &[String], line: usize, col: usize) -> (r: (usize, usize))
    ensures
        r == next_word(texts(lines@), (line, col)),
{
    let start = class_of(char_at(lines, line, col));
    match adv(lines, line, col) {
        Some(p) => {
            let q = if start != 0 {
                skip_run(lines, p, line, start)
            } else {
                p
            };
            skip_blanks(lines, q)
        },
        None => (line, col),
    }
}

/// `b` — start of the current or previous word.
pub fn word_backward(lines: &[String], line: usize, col: usize) -> (r: (usize, usize))
    ensures
        r == previous_word(texts(lines@), (line, col)),
{
    match retr(lines, line, col) {
        Some(p) => {
            let q = skip_blanks_back(lines, p);
            first_of_run(lines, q, class_of(char_at(lines, q.0, q.1)))
        },
        None => (line, col),
    }
}

/// `e` — end of the current or next word.
pub fn word_end(lines: &[String], line: usize, col: usize) -> (r: (usize, usize))
    ensures
        r == word_last(texts(lines@), (line, col)),
{
    match adv(lines, line, col) {
        Some(p) => {
            let q = skip_blanks(lines, p);
            last_of_run(lines, q, class_of(char_at(lines, q.0, q.1)))
        },
        None => (line, col),
    }
}

// ---- What motions promise ----------------------------------------------------

/// Whether a position is on a line of the file, at a character or just past the
/// last one.
pub open spec fn in_file(lines: Seq<Seq<char>>, p: Position) -> bool {
    1 <= p.0 <= lines.len() && p.1 <= lines[p.0 - 1].len()
}

/// Whether `q` is `p` or comes after it.
pub open spec fn not_before(p: Position, q: Position) -> bool {
    p == q || precedes(p, q)
}

/// Whether a position is on a line of the file, in whatever column.
pub open spec fn on_a_line(lines: Seq<Seq<char>>, p: Position) -> bool {
    1 <= p.0 <= lines.len()
}

proof fn lemma_past_blanks(lines: Seq<Seq<char>>, p: Position)
    ensures
        not_before(p, past_blanks(lines, p)),
        in_file(lines, p) ==> in_file(lines, past_blanks(lines, p)),
        on_a_line(lines, p) ==> on_a_line(lines, past_blanks(lines, p)),
    decreases lines.len() - p.0, line_at(lines, p.0 as int).len() - p.1,
{
    if class_there(lines, p) == 0 {
        if let Some(q) = next_position(lines, p) {
            lemma_past_blanks(lines, q);
        }
    }
}

proof fn lemma_past_run(lines: Seq<Seq<char>>, p: Position, line: usize, c: u8)
    ensures
        not_before(p, past_run(lines, p, line, c)),
        in_file(lines, p) ==> in_file(lines, past_run(lines, p, line, c)),
        on_a_line(lines, p) ==> on_a_line(lines, past_run(lines, p, line, c)),
    decreases lines.len() - p.0, line_at(lines, p.0 as int).len() - p.1,
{
    if p.0 == line && class_there(lines, p) == c {
        if let Some(q) = next_position(lines, p) {
            lemma_past_run(lines, q, line, c);
        }
    }
}

proof fn lemma_run_end(lines: Seq<Seq<char>>, p: Position, c: u8)
    ensures
        not_before(p, run_end(lines, p, c)),
        in_file(lines, p) ==> in_file(lines, run_end(lines, p, c)),
        run_end(lines, p, c).0 == p.0,
    decreases lines.len() - p.0, line_at(lines, p.0 as int).len() - p.1,
{
    if let Some(q) = next_position(lines, p) {
        if q.0 == p.0 && class_there(lines, q) == c {
            lemma_run_end(lines, q, c);
        }
    }
}

proof fn lemma_before_blanks(lines: Seq<Seq<char>>, p: Position)
    ensures
        not_before(before_blanks(lines, p), p),
        p.0 >= 1 ==> before_blanks(lines, p).0 >= 1,
        in_file(lines, p) ==> in_file(lines, before_blanks(lines, p)),
    decreases p.0, p.1,
{
    if class_there(lines, p) == 0 {
        if let Some(q) = previous_position(lines, p) {
            lemma_before_blanks(lines, q);
        }
    }
}

proof fn lemma_run_start(lines: Seq<Seq<char>>, p: Position, c: u8)
    ensures
        not_before(run_start(lines, p, c), p),
        run_start(lines, p, c).0 == p.0,
        in_file(lines, p) ==> in_file(lines, run_start(lines, p, c)),
    decreases p.0, p.1,
{
    if let Some(q) = previous_position(lines, p) {
        if q.0 == p.0 && class_there(lines, q) == c {
            lemma_run_start(lines, q, c);
        }
    }
}

/// The lemmas on the parts of the word motions from `p`.
proof fn lemma_word_motions(lines: Seq<Seq<char>>, p: Position)
    ensures
        next_position(lines, p) matches Some(q) ==> {
            &&& not_before(q, next_word(lines, p))
            &&& not_before(q, word_last(lines, p))
            &&& in_file(lines, q) ==> in_file(lines, next_word(lines, p)) && in_file(
                lines,
                word_last(lines, p),
            )
            &&& on_a_line(lines, q) ==> on_a_line(lines, next_word(lines, p)) && on_a_line(
                lines,
                word_last(lines, p),
            )
        },
        previous_position(lines, p) matches Some(q) ==> {
            &&& not_before(previous_word(lines, p), q)
            &&& in_file(lines, q) ==> in_file(lines, previous_word(lines, p))
            &&& q.0 >= 1 ==> previous_word(lines, p).0 >= 1
        },
{
    if let Some(q) = next_position(lines, p) {
        let c = class_there(lines, p);
        lemma_past_run(lines, q, p.0, c);
        lemma_past_blanks(lines, if c != 0 { past_run(lines, q, p.0, c) } else { q });
        lemma_past_blanks(lines, q);
        let r = past_blanks(lines, q);
        lemma_run_end(lines, r, class_there(lines, r));
    }
    if let Some(q) = previous_position(lines, p) {
        lemma_before_blanks(lines, q);
        let r = before_blanks(lines, q);
        lemma_run_start(lines, r, class_there(lines, r));
    }
}

/// `w` and `e` never move back, `b` never moves on, and none of them leaves the
/// file.
pub proof fn word_motions_keep_direction(lines: Seq<Seq<char>>, p: Position)
    requires
        in_file(lines, p),
    ensures
        not_before(p, next_word(lines, p)),
        not_before(p, word_last(lines, p)),
        not_before(previous_word(lines, p), p),
        in_file(lines, next_word(lines, p)),
        in_file(lines, word_last(lines, p)),
        in_file(lines, previous_word(lines, p)),
{
    lemma_word_motions(lines, p);
}

/// From whatever column of a line, the word motions end on a line of the file.
pub proof fn word_motions_end_on_a_line(lines: Seq<Seq<char>>, p: Position)
    requires
        on_a_line(lines, p),
    ensures
        on_a_line(lines, next_word(lines, p)),
        on_a_line(lines, word_last(lines, p)),
        on_a_line(lines, previous_word(lines, p)),
{
    lemma_word_motions(lines, p);
}

/// Where there is a next position, `w` and `e` move on; where there is a
/// previous one, `b` moves back.
pub proof fn word_motions_move(lines: Seq<Seq<char>>, p: Position)
    ensures
        next_position(lines, p) is Some ==> precedes(p, next_word(lines, p)) && precedes(
            p,
            word_last(lines, p),
        ),
        previous_position(lines, p) is Some ==> precedes(previous_word(lines, p), p),
{
    lemma_word_motions(lines, p);
}

/// Whether a word starts at a position: a character that is not blank, first on
/// its line or after one of another class.
pub open spec fn is_word_start(lines: Seq<Seq<char>>, p: Position) -> bool {
    class_there(lines, p) != 0 && (p.1 == 0 || class_there(lines, (p.0, (p.1 - 1) as usize)) != class_there(
        lines,
        p,
    ))
}

/// Whether a word ends at a position: a character that is not blank, last on its
/// line or before one of another class.
pub open spec fn is_word_end(lines: Seq<Seq<char>>, p: Position) -> bool {
    class_there(lines, p) != 0 && (p.1 + 1 >= line_at(lines, p.0 as int).len() || p.1 == usize::MAX
        || class_there(lines, (p.0, (p.1 + 1) as usize)) != class_there(lines, p))
}

/// Whether the character before `q` on its line, if there is one, is not of the
/// class `c`.
spec fn follows_other(lines: Seq<Seq<char>>, q: Position, c: u8) -> bool {
    q.1 == 0 || class_there(lines, (q.0, (q.1 - 1) as usize)) != c
}

proof fn lemma_blanks_lead_to_start(lines: Seq<Seq<char>>, p: Position)
    requires
        class_there(lines, p) != 0 ==> follows_other(lines, p, class_there(lines, p)),
    ensures
        is_word_start(lines, past_blanks(lines, p)) || next_position(lines, past_blanks(lines, p)) is None,
    decreases lines.len() - p.0, line_at(lines, p.0 as int).len() - p.1,
{
    if class_there(lines, p) == 0 {
        if let Some(q) = next_position(lines, p) {
            lemma_blanks_lead_to_start(lines, q);
        }
    }
}

proof fn lemma_run_leads_out(lines: Seq<Seq<char>>, p: Position, line: usize, c: u8)
    requires
        c != 0,
        p.0 == line ==> p.1 > 0 && class_there(lines, (p.0, (p.1 - 1) as usize)) == c,
        p.0 != line ==> p.1 == 0,
    ensures
        ({
            let q = past_run(lines, p, line, c);
            next_position(lines, q) is None || (class_there(lines, q) != 0 ==> follows_other(
                lines,
                q,
                class_there(lines, q),
            ))
        }),
    decreases lines.len() - p.0, line_at(lines, p.0 as int).len() - p.1,
{
    if p.0 == line && class_there(lines, p) == c {
        if let Some(q) = next_position(lines, p) {
            lemma_run_leads_out(lines, q, line, c);
        }
    }
}

proof fn lemma_run_starts(lines: Seq<Seq<char>>, p: Position, c: u8)
    requires
        class_there(lines, p) == c,
        c != 0,
    ensures
        is_word_start(lines, run_start(lines, p, c)),
    decreases p.0, p.1,
{
    if let Some(q) = previous_position(lines, p) {
        if q.0 == p.0 && class_there(lines, q) == c {
            lemma_run_starts(lines, q, c);
        }
    }
}

proof fn lemma_run_ends(lines: Seq<Seq<char>>, p: Position, c: u8)
    requires
        class_there(lines, p) == c,
        c != 0,
    ensures
        is_word_end(lines, run_end(lines, p, c)),
    decreases lines.len() - p.0, line_at(lines, p.0 as int).len() - p.1,
{
    if let Some(q) = next_position(lines, p) {
        if q.0 == p.0 && class_there(lines, q) == c {
            lemma_run_ends(lines, q, c);
        }
    }
}

proof fn lemma_first_blank(lines: Seq<Seq<char>>, p: Position)
    ensures
        class_there(lines, before_blanks(lines, p)) == 0 ==> previous_position(
            lines,
            before_blanks(lines, p),
        ) is None,
    decreases p.0, p.1,
{
    if class_there(lines, p) == 0 {
        if let Some(q) = previous_position(lines, p) {
            lemma_first_blank(lines, q);
        }
    }
}

proof fn lemma_last_blank(lines: Seq<Seq<char>>, p: Position)
    ensures
        class_there(lines, past_blanks(lines, p)) == 0 ==> next_position(
            lines,
            past_blanks(lines, p),
        ) is None,
    decreases lines.len() - p.0, line_at(lines, p.0 as int).len() - p.1,
{
    if class_there(lines, p) == 0 {
        if let Some(q) = next_position(lines, p) {
            lemma_last_blank(lines, q);
        }
    }
}

/// `w` ends at the start of a word, or at the end of the file; `e` at the end of a
/// word, or at the end of the file; `b` at the start of a word, or at the start of
/// the file. The end of a line ends a word.
pub proof fn word_motions_find_words(lines: Seq<Seq<char>>, p: Position)
    ensures
        is_word_start(lines, next_word(lines, p)) || next_position(lines, next_word(lines, p)) is None,
        is_word_end(lines, word_last(lines, p)) || next_position(lines, word_last(lines, p)) is None,
        is_word_start(lines, previous_word(lines, p)) || previous_position(
            lines,
            previous_word(lines, p),
        ) is None,
{
    if let Some(q) = next_position(lines, p) {
        let c = class_there(lines, p);
        if c != 0 {
            lemma_run_leads_out(lines, q, p.0, c);
            let r = past_run(lines, q, p.0, c);
            if class_there(lines, r) == 0 || follows_other(lines, r, class_there(lines, r)) {
                lemma_blanks_lead_to_start(lines, r);
            }
        } else {
            lemma_blanks_lead_to_start(lines, q);
        }
        lemma_last_blank(lines, q);
        let r = past_blanks(lines, q);
        if class_there(lines, r) != 0 {
            lemma_run_ends(lines, r, class_there(lines, r));
        }
    }
    if let Some(q) = previous_position(lines, p) {
        lemma_first_blank(lines, q);
        let r = before_blanks(lines, q);
        if class_there(lines, r) != 0 {
            lemma_run_starts(lines, r, class_there(lines, r));
        }
    }
}

proof fn lemma_paragraph_above(lines: Seq<Seq<char>>, from: int, blank: bool)
    ensures
        1 <= paragraph_above(lines, from, blank) <= if from <= 1 { 1 } else { from },
        paragraph_above(lines, from, blank) > 1 ==> blank_line(lines, paragraph_above(lines, from, blank))
            == blank,
        forall|l: int|
            paragraph_above(lines, from, blank) < l <= from ==> #[trigger] blank_line(lines, l) != blank,
    decreases from,
{
    if from > 1 && blank_line(lines, from) != blank {
        lemma_paragraph_above(lines, from - 1, blank);
    }
}

proof fn lemma_paragraph_below(lines: Seq<Seq<char>>, from: int, blank: bool)
    ensures
        paragraph_below(lines, from, blank) <= lines.len(),
        paragraph_below(lines, from, blank) >= if from <= lines.len() { from } else { lines.len() as int },
        paragraph_below(lines, from, blank) < lines.len() ==> blank_line(
            lines,
            paragraph_below(lines, from, blank),
        ) == blank,
        forall|l: int|
            from <= l < paragraph_below(lines, from, blank) ==> #[trigger] blank_line(lines, l) != blank,
    decreases lines.len() - from,
{
    if from < lines.len() && blank_line(lines, from) != blank {
        lemma_paragraph_below(lines, from + 1, blank);
    }
}

/// From a line of a paragraph, `}` leads to the blank line below the paragraph and
/// `{` to the one above: no line on the way is blank. Where there is none they lead
/// to the last and to the first line.
pub proof fn paragraph_motions_find_the_blank_line(lines: Seq<Seq<char>>, line: int)
    requires
        1 <= line <= lines.len(),
        !blank_line(lines, line),
    ensures
        ({
            let (above, below) = (paragraph_start(lines, line), paragraph_end(lines, line));
            &&& blank_line(lines, below) || below == lines.len()
            &&& forall|l: int| line < l < below ==> !#[trigger] blank_line(lines, l)
            &&& blank_line(lines, above) || above == 1
            &&& forall|l: int| above < l < line ==> !#[trigger] blank_line(lines, l)
        }),
{
    lemma_paragraph_above(lines, line - 1, true);
    lemma_paragraph_below(lines, line + 1, true);
}

proof fn lemma_section_above(lines: Seq<Seq<char>>, from: int)
    ensures
        1 <= section_above(lines, from) <= if from <= 1 { 1 } else { from },
    decreases from,
{
    if from > 1 && !section_line(lines, from) {
        lemma_section_above(lines, from - 1);
    }
}

proof fn lemma_section_below(lines: Seq<Seq<char>>, from: int)
    requires
        from >= 1,
    ensures
        1 <= section_below(lines, from) <= if lines.len() == 0 { 1 } else { lines.len() as int },
    decreases lines.len() - from,
{
    if from < lines.len() && !section_line(lines, from) {
        lemma_section_below(lines, from + 1);
    }
}

proof fn lemma_line_motions(lines: Seq<Seq<char>>, line: int)
    requires
        line >= 1,
    ensures
        1 <= paragraph_start(lines, line) <= line,
        paragraph_end(lines, line) >= 1,
        line <= lines.len() ==> line <= paragraph_end(lines, line) <= lines.len(),
        1 <= section_above(lines, line - 1) <= line,
        1 <= section_below(lines, line + 1),
        lines.len() > 0 ==> section_below(lines, line + 1) <= lines.len(),
{
    lemma_paragraph_above(lines, line - 1, false);
    lemma_paragraph_above(lines, line - 1, true);
    lemma_paragraph_above(lines, paragraph_above(lines, line - 1, false), true);
    lemma_paragraph_below(lines, line + 1, false);
    lemma_paragraph_below(lines, line + 1, true);
    lemma_paragraph_below(lines, paragraph_below(lines, line + 1, false), true);
    lemma_section_above(lines, line - 1);
    lemma_section_below(lines, line + 1);
}

/// Paragraph and section motions stay on the lines of the file.
pub proof fn line_motions_stay_in_file(lines: Seq<Seq<char>>, line: int)
    requires
        1 <= line <= lines.len(),
    ensures
        1 <= paragraph_start(lines, line) <= line,
        line <= paragraph_end(lines, line) <= lines.len(),
        1 <= section_above(lines, line - 1) <= line,
        1 <= section_below(lines, line + 1) <= lines.len(),
{
    lemma_line_motions(lines, line);
}

/// Every motion ends on a line that counts from 1, also from a position that the
/// file no longer has.
pub proof fn motions_count_from_one(lines: Seq<Seq<char>>, p: Position)
    requires
        p.0 >= 1,
    ensures
        next_word(lines, p).0 >= 1,
        previous_word(lines, p).0 >= 1,
        word_last(lines, p).0 >= 1,
        paragraph_start(lines, p.0 as int) >= 1,
        paragraph_end(lines, p.0 as int) >= 1,
        section_above(lines, p.0 - 1) >= 1,
        section_below(lines, p.0 + 1) >= 1,
{
    lemma_word_motions(lines, p);
    lemma_line_motions(lines, p.0 as int);
}

/// In an empty file every motion stays on the first line.
pub proof fn motions_in_an_empty_file(lines: Seq<Seq<char>>, p: Position)
    requires
        lines.len() == 0,
        p.0 == 1,
    ensures
        next_word(lines, p).0 == 1,
        previous_word(lines, p).0 == 1,
        word_last(lines, p).0 == 1,
        paragraph_start(lines, 1) == 1,
        paragraph_end(lines, 1) == 1,
        section_above(lines, 0) == 1,
        section_below(lines, 2) == 1,
{
    motions_count_from_one(lines, p);
    lemma_word_motions(lines, p);
    lemma_line_motions(lines, 1);
}

/// What a character is to the word motions: white space, a letter, digit or
/// underscore of a word, or punctuation.
pub open spec fn is_letter(c: char) -> bool {
    alphanumeric(c) || c == '_'
}

/// Whether two characters can stand in one word: both are letters, digits or
/// underscores, or both are punctuation.
pub open spec fn same_word(c: char, d: char) -> bool {
    !white_space(c) && !white_space(d) && is_letter(c) == is_letter(d)
}

/// Whether a word starts at a position of a file: the character there is no white
/// space, and the one before it on its line is not of the same word.
pub open spec fn starts_word(lines: Seq<Seq<char>>, p: Position) -> bool {
    &&& 1 <= p.0 <= lines.len()
    &&& p.1 < lines[p.0 - 1].len()
    &&& !white_space(lines[p.0 - 1][p.1 as int])
    &&& p.1 > 0 ==> !same_word(lines[p.0 - 1][p.1 - 1], lines[p.0 - 1][p.1 as int])
}

/// Whether a word ends at a position of a file.
pub open spec fn ends_word(lines: Seq<Seq<char>>, p: Position) -> bool {
    &&& 1 <= p.0 <= lines.len()
    &&& p.1 < lines[p.0 - 1].len()
    &&& !white_space(lines[p.0 - 1][p.1 as int])
    &&& p.1 + 1 < lines[p.0 - 1].len() ==> !same_word(lines[p.0 - 1][p.1 as int], lines[p.0 - 1][p.1 + 1])
}

/// Whether `a` comes before `b`.
pub open spec fn comes_before(a: Position, b: Position) -> bool {
    a.0 < b.0 || (a.0 == b.0 && a.1 < b.1)
}

/// The class of a character tells white space, words and punctuation apart.
pub proof fn classes_part_words(c: char, d: char)
    ensures
        class(Some(c)) == 0 <==> white_space(c),
        class(None) == 0,
        class(Some(c)) != 0 && class(Some(c)) == class(Some(d)) <==> same_word(c, d),
{
}

proof fn lemma_starts(lines: Seq<Seq<char>>, p: Position)
    requires
        1 <= p.0,
    ensures
        starts_word(lines, p) <==> is_word_start(lines, p),
        p.1 < usize::MAX ==> (ends_word(lines, p) <==> is_word_end(lines, p)),
{
}

/// No position lies between a position and the next.
proof fn lemma_next(lines: Seq<Seq<char>>, p: Position, x: Position)
    requires
        comes_before(p, x),
        class_there(lines, x) != 0,
        1 <= p.0,
    ensures
        next_position(lines, p) matches Some(q) && (x == q || comes_before(q, x)),
{
}

proof fn lemma_previous(lines: Seq<Seq<char>>, p: Position, x: Position)
    requires
        forall|i: int| 0 <= i < lines.len() ==> (#[trigger] lines[i]).len() <= usize::MAX,
        comes_before(x, p),
        class_there(lines, x) != 0,
    ensures
        previous_position(lines, p) matches Some(q) && (x == q || comes_before(x, q)),
{
    if p.1 == 0 && p.0 > 1 && p.0 - 1 <= lines.len() {
        assert(lines[p.0 - 2].len() <= usize::MAX);
    }
}

proof fn lemma_blanks_passed(lines: Seq<Seq<char>>, p: Position, x: Position)
    requires
        1 <= p.0,
        p == x || comes_before(p, x),
        comes_before(x, past_blanks(lines, p)),
    ensures
        class_there(lines, x) == 0,
    decreases lines.len() - p.0, line_at(lines, p.0 as int).len() - p.1,
{
    if class_there(lines, x) != 0 && p != x && class_there(lines, p) == 0 {
        lemma_next(lines, p, x);
        lemma_blanks_passed(lines, next_position(lines, p).unwrap(), x);
    }
}

proof fn lemma_run_passed(lines: Seq<Seq<char>>, p: Position, line: usize, c: u8, x: Position)
    requires
        1 <= p.0,
        c != 0,
        p.0 == line ==> p.1 > 0 && class_there(lines, (p.0, (p.1 - 1) as usize)) == c,
        p == x || comes_before(p, x),
        comes_before(x, past_run(lines, p, line, c)),
    ensures
        !starts_word(lines, x),
    decreases lines.len() - p.0, line_at(lines, p.0 as int).len() - p.1,
{
    lemma_starts(lines, x);
    if class_there(lines, x) != 0 && p != x && p.0 == line && class_there(lines, p) == c {
        lemma_next(lines, p, x);
        lemma_run_passed(lines, next_position(lines, p).unwrap(), line, c, x);
    }
}

/// `w` passes over no start of a word.
pub proof fn next_word_is_the_next(lines: Seq<Seq<char>>, p: Position, x: Position)
    requires
        1 <= p.0,
        comes_before(p, x),
        starts_word(lines, x),
    ensures
        !comes_before(x, next_word(lines, p)),
{
    lemma_starts(lines, x);
    lemma_next(lines, p, x);
    let q = next_position(lines, p).unwrap();
    let c = class_there(lines, p);
    if comes_before(x, next_word(lines, p)) {
        let r = if c != 0 { past_run(lines, q, p.0, c) } else { q };
        if comes_before(x, r) {
            lemma_run_passed(lines, q, p.0, c, x);
        } else {
            if c != 0 {
                lemma_past_run(lines, q, p.0, c);
            }
            lemma_past_blanks(lines, r);
            lemma_blanks_passed(lines, r, x);
        }
    }
}

proof fn lemma_run_to_end(lines: Seq<Seq<char>>, p: Position, c: u8, x: Position)
    requires
        1 <= p.0,
        c != 0,
        class_there(lines, p) == c,
        x.1 < usize::MAX,
        p == x || comes_before(p, x),
        comes_before(x, run_end(lines, p, c)),
    ensures
        !ends_word(lines, x),
    decreases lines.len() - p.0, line_at(lines, p.0 as int).len() - p.1,
{
    lemma_starts(lines, x);
    if class_there(lines, x) != 0 && p != x {
        lemma_next(lines, p, x);
        lemma_run_to_end(lines, next_position(lines, p).unwrap(), c, x);
    }
}

/// `e` passes over no end of a word.
pub proof fn word_end_is_the_next(lines: Seq<Seq<char>>, p: Position, x: Position)
    requires
        1 <= p.0,
        x.1 < usize::MAX,
        comes_before(p, x),
        ends_word(lines, x),
    ensures
        !comes_before(x, word_last(lines, p)),
{
    lemma_starts(lines, x);
    lemma_next(lines, p, x);
    let q = next_position(lines, p).unwrap();
    let r = past_blanks(lines, q);
    if comes_before(x, word_last(lines, p)) {
        if comes_before(x, r) {
            lemma_blanks_passed(lines, q, x);
        } else if class_there(lines, r) != 0 {
            lemma_past_blanks(lines, q);
            lemma_run_to_end(lines, r, class_there(lines, r), x);
        } else {
            lemma_last_blank(lines, q);
            if r != x {
                lemma_next(lines, r, x);
            }
        }
    }
}

proof fn lemma_blanks_passed_back(lines: Seq<Seq<char>>, p: Position, x: Position)
    requires
        forall|i: int| 0 <= i < lines.len() ==> (#[trigger] lines[i]).len() <= usize::MAX,
        p == x || comes_before(x, p),
        comes_before(before_blanks(lines, p), x),
    ensures
        class_there(lines, x) == 0,
    decreases p.0, p.1,
{
    if class_there(lines, x) != 0 && p != x && class_there(lines, p) == 0 {
        lemma_previous(lines, p, x);
        lemma_blanks_passed_back(lines, previous_position(lines, p).unwrap(), x);
    }
}

proof fn lemma_run_to_start(lines: Seq<Seq<char>>, p: Position, c: u8, x: Position)
    requires
        forall|i: int| 0 <= i < lines.len() ==> (#[trigger] lines[i]).len() <= usize::MAX,
        c != 0,
        1 <= x.0,
        class_there(lines, p) == c,
        p == x || comes_before(x, p),
        comes_before(run_start(lines, p, c), x),
    ensures
        !starts_word(lines, x),
    decreases p.0, p.1,
{
    lemma_starts(lines, x);
    if class_there(lines, x) != 0 && p != x {
        lemma_previous(lines, p, x);
        lemma_run_to_start(lines, previous_position(lines, p).unwrap(), c, x);
    }
}

/// `b` passes over no start of a word.
pub proof fn previous_word_is_the_last_before(lines: Seq<Seq<char>>, p: Position, x: Position)
    requires
        forall|i: int| 0 <= i < lines.len() ==> (#[trigger] lines[i]).len() <= usize::MAX,
        comes_before(x, p),
        starts_word(lines, x),
    ensures
        !comes_before(previous_word(lines, p), x),
{
    lemma_starts(lines, x);
    lemma_previous(lines, p, x);
    let q = previous_position(lines, p).unwrap();
    let r = before_blanks(lines, q);
    if comes_before(previous_word(lines, p), x) {
        if comes_before(r, x) {
            lemma_blanks_passed_back(lines, q, x);
        } else if class_there(lines, r) != 0 {
            lemma_before_blanks(lines, q);
            lemma_run_to_start(lines, r, class_there(lines, r), x);
        } else {
            lemma_first_blank(lines, q);
            if r != x {
                lemma_previous(lines, r, x);
            }
        }
    }
}

/// `w` and `b` end at the start of a word and `e` at the end of one, unless no such
/// place comes after the cursor, or before it.
pub proof fn word_motions_end_at_words(lines: Seq<Seq<char>>, p: Position, x: Position)
    requires
        1 <= p.0,
        forall|i: int| 0 <= i < lines.len() ==> (#[trigger] lines[i]).len() < usize::MAX,
    ensures
        comes_before(p, x) && starts_word(lines, x) ==> starts_word(lines, next_word(lines, p)) && comes_before(
            p,
            next_word(lines, p),
        ),
        comes_before(p, x) && ends_word(lines, x) ==> ends_word(lines, word_last(lines, p)) && comes_before(
            p,
            word_last(lines, p),
        ),
        comes_before(x, p) && starts_word(lines, x) ==> starts_word(lines, previous_word(lines, p)) && comes_before(
            previous_word(lines, p),
            p,
        ),
{
    word_motions_find_words(lines, p);
    word_motions_move(lines, p);
    motions_count_from_one(lines, p);
    if comes_before(p, x) && starts_word(lines, x) {
        lemma_starts(lines, x);
        lemma_next(lines, p, x);
        next_word_is_the_next(lines, p, x);
        let w = next_word(lines, p);
        lemma_starts(lines, w);
        if next_position(lines, w) is None && w != x {
            lemma_next(lines, w, x);
        }
    }
    if comes_before(p, x) && ends_word(lines, x) {
        assert(lines[x.0 - 1].len() < usize::MAX);
        lemma_starts(lines, x);
        lemma_next(lines, p, x);
        word_end_is_the_next(lines, p, x);
        let w = word_last(lines, p);
        if next_position(lines, w) is None && w != x {
            lemma_next(lines, w, x);
        }
        if class_there(lines, w) != 0 {
            assert(lines[w.0 - 1].len() < usize::MAX);
        }
        lemma_starts(lines, w);
    }
    assert forall|i: int| 0 <= i < lines.len() implies (#[trigger] lines[i]).len() <= usize::MAX by {}
    if comes_before(x, p) && starts_word(lines, x) {
        lemma_starts(lines, x);
        lemma_previous(lines, p, x);
        previous_word_is_the_last_before(lines, p, x);
        let w = previous_word(lines, p);
        lemma_starts(lines, w);
        if previous_position(lines, w) is None && w != x {
            lemma_previous(lines, w, x);
        }
    }
}

/// Whether a line of a file is white space only.
pub open spec fn is_blank_row(lines: Seq<Seq<char>>, line: int) -> bool {
    forall|i: int| 0 <= i < lines[line - 1].len() ==> white_space(#[trigger] lines[line - 1][i])
}

proof fn lemma_trimmed_empty(s: Seq<char>)
    ensures
        trimmed(s).len() == 0 <==> forall|i: int| 0 <= i < s.len() ==> white_space(#[trigger] s[i]),
    decreases s.len(),
{
    if s.len() > 0 && white_space(s[0]) {
        let rest = s.skip(1);
        lemma_trimmed_empty(rest);
        assert forall|i: int| 0 <= i < s.len() && (forall|k: int|
            0 <= k < rest.len() ==> white_space(#[trigger] rest[k])) implies white_space(#[trigger] s[i]) by {
            if i > 0 {
                assert(rest[i - 1] == s[i]);
            }
        }
        assert forall|i: int| 0 <= i < rest.len() && (forall|k: int|
            0 <= k < s.len() ==> white_space(#[trigger] s[k])) implies white_space(#[trigger] rest[i]) by {
            assert(rest[i] == s[i + 1]);
        }
    } else if s.len() > 0 {
        lemma_trimmed_end_first(s);
        assert(!white_space(s[0]));
    }
}

proof fn lemma_trimmed_end_first(s: Seq<char>)
    requires
        s.len() > 0,
        !white_space(s[0]),
    ensures
        trimmed_end(s).len() > 0,
    decreases s.len(),
{
    if white_space(s.last()) {
        lemma_trimmed_end_first(s.drop_last());
    }
}

/// `{` and `}` stop at the first blank line behind lines that are not blank: on the
/// way there is no blank line between the cursor and the text, no line of text between
/// them where the cursor starts on a blank line, and none is passed over. `[` and `]`
/// stop at the nearest line that does not start with white space. Where there is no
/// such line, all of them go to the first or the last line.
pub proof fn line_motions_stop_at_the_nearest(lines: Seq<Seq<char>>, line: int, x: int)
    requires
        1 <= line <= lines.len(),
        1 <= x <= lines.len(),
    ensures
        ({
            let (above, below) = (paragraph_start(lines, line), paragraph_end(lines, line));
            &&& 1 <= above <= line && line <= below <= lines.len()
            &&& above > 1 ==> is_blank_row(lines, above)
            &&& below < lines.len() ==> is_blank_row(lines, below)
            &&& below < lines.len() ==> line < below && (is_blank_row(lines, line) ==> !is_blank_row(lines, below - 1))
            &&& above > 1 ==> above < line && (is_blank_row(lines, line) ==> !is_blank_row(lines, above + 1))
            &&& !is_blank_row(lines, line) && line < x < below ==> !is_blank_row(lines, x)
            &&& !is_blank_row(lines, line) && above < x < line ==> !is_blank_row(lines, x)
            &&& is_blank_row(lines, line) && line < x < below && is_blank_row(lines, x) ==> is_blank_row(lines, x - 1)
            &&& is_blank_row(lines, line) && above < x < line && is_blank_row(lines, x) ==> is_blank_row(lines, x + 1)
        }),
        ({
            let (above, below) = (section_above(lines, line - 1), section_below(lines, line + 1));
            let flush = lines[x - 1].len() > 0 && !white_space(lines[x - 1][0]);
            &&& 1 <= above <= line && 1 <= below <= lines.len()
            &&& above > 1 ==> above < line && lines[above - 1].len() > 0 && !white_space(lines[above - 1][0])
            &&& below < lines.len() ==> below > line && lines[below - 1].len() > 0 && !white_space(
                lines[below - 1][0],
            )
            &&& x < line && flush ==> x <= above
            &&& x > line && flush ==> below <= x
        }),
{
    lemma_line_motions(lines, line);
    assert forall|l: int| 1 <= l <= lines.len() implies (#[trigger] blank_line(lines, l) <==> is_blank_row(lines, l)) by {
        lemma_trimmed_empty(lines[l - 1]);
    }
    let up = if blank_line(lines, line) { paragraph_above(lines, line - 1, false) } else { line - 1 };
    let down = if blank_line(lines, line) { paragraph_below(lines, line + 1, false) } else { line + 1 };
    lemma_paragraph_above(lines, line - 1, false);
    lemma_paragraph_above(lines, up, true);
    lemma_paragraph_below(lines, line + 1, false);
    lemma_paragraph_below(lines, down, true);
    lemma_sections(lines, line);
    assert(section_line(lines, x) <==> lines[x - 1].len() > 0 && !white_space(lines[x - 1][0]));
    assert(blank_line(lines, x) <==> is_blank_row(lines, x));
    assert(blank_line(lines, line) <==> is_blank_row(lines, line));
    let (above, below) = (paragraph_start(lines, line), paragraph_end(lines, line));
    assert(blank_line(lines, above) <==> is_blank_row(lines, above));
    assert(blank_line(lines, below) <==> is_blank_row(lines, below));
    if x > 1 {
        assert(blank_line(lines, x - 1) <==> is_blank_row(lines, x - 1));
    }
    if x < lines.len() {
        assert(blank_line(lines, x + 1) <==> is_blank_row(lines, x + 1));
    }
    if above < lines.len() {
        assert(blank_line(lines, above + 1) <==> is_blank_row(lines, above + 1));
    }
    if below > 1 {
        assert(blank_line(lines, below - 1) <==> is_blank_row(lines, below - 1));
    }
}

proof fn lemma_sections(lines: Seq<Seq<char>>, line: int)
    requires
        1 <= line <= lines.len(),
    ensures
        ({
            let (above, below) = (section_above(lines, line - 1), section_below(lines, line + 1));
            &&& above > 1 ==> above < line && section_line(lines, above)
            &&& below < lines.len() ==> below > line && section_line(lines, below)
            &&& forall|x: int| above < x < line && 1 <= x ==> !#[trigger] section_line(lines, x)
            &&& forall|x: int| line < x < below ==> !#[trigger] section_line(lines, x)
        }),
{
    lemma_sections_above(lines, line - 1);
    lemma_sections_below(lines, line + 1);
}

proof fn lemma_sections_above(lines: Seq<Seq<char>>, from: int)
    ensures
        ({
            let above = section_above(lines, from);
            &&& above > 1 ==> above <= from && section_line(lines, above)
            &&& forall|x: int| above < x <= from ==> !#[trigger] section_line(lines, x)
        }),
    decreases from,
{
    if from > 1 && !section_line(lines, from) {
        lemma_sections_above(lines, from - 1);
    }
}

proof fn lemma_sections_below(lines: Seq<Seq<char>>, from: int)
    requires
        1 <= from,
        lines.len() > 0,
    ensures
        ({
            let below = section_below(lines, from);
            &&& below < lines.len() ==> below >= from && section_line(lines, below)
            &&& forall|x: int| from <= x < below ==> !#[trigger] section_line(lines, x)
        }),
    decreases lines.len() - from,
{
    if from < lines.len() && !section_line(lines, from) {
        lemma_sections_below(lines, from + 1);
    }
}

/// `^` goes to the first character of its line that is no white space, or to the
/// start of a blank line.
pub proof fn indent_is_the_first_character(l: Seq<char>, x: int)
    requires
        0 <= x < l.len(),
        !white_space(l[x]),
    ensures
        0 <= indent(l) <= x,
        !white_space(l[indent(l)]),
    decreases l.len(),
{
    if white_space(l[0]) {
        let rest = l.skip(1);
        assert(rest[x - 1] == l[x]);
        indent_is_the_first_character(rest, x - 1);
        lemma_trimmed_start_len(rest);
        lemma_indent(rest, x - 1);
        assert(rest[indent(rest)] == l[indent(l)]);
    }
}

proof fn lemma_indent(l: Seq<char>, x: int)
    requires
        0 <= x < l.len(),
        !white_space(l[x]),
    ensures
        trimmed_start(l).len() > 0,
    decreases l.len(),
{
    if white_space(l[0]) {
        assert(l.skip(1)[x - 1] == l[x]);
        lemma_indent(l.skip(1), x - 1);
    }
}

}

//! The diff of a file in the viewer.

use super::highlight::{line_tokens, token_models, token_texts, Highlighter, Token};
use super::search::{SearchMode, SearchModel, SearchState};
use super::sidebar::{clamp_scroll, scroll_in};
use crate::git::concatenated;
use crate::diff::{
    count_of, DiffLine, DiffLineType, FileDiff, FileModel, Hunk, HunkModel, LineModel,
};
use crate::notes::{expand_tabs, expanded};
use crate::number::{decimal, padded_left, padded_right, push_decimal, push_repeated};
use crate::style::{
    in_color, line_models, line_text, line_text_adds_up, plain, span_models, styled, Color, Line, Span,
    SpanModel, Style,
};
use crate::text::{
    boundary, byte_len, bytes_in, chars_before, chars_of, find_from, first_occurrence, is_boundary,
    lemma_boundary_unique, lemma_byte_len_add, lemma_byte_len_grows, lemma_first_occurrence, lowercase,
    lowered, occurs_at, push_text, string_of,
};
use vstd::prelude::*;
use vstd::slice::slice_subrange;

verus! {

pub struct DiffView {
    pub scroll_offset: u16,
    pub h_scroll: u16,
}

// ---- Marking what is searched for --------------------------------------------

/// The style of what is searched for.
pub open spec fn hit_style() -> Style {
    Style { fg: Some(Color::Black), bg: Some(Color::Yellow), ..plain() }
}

/// The characters of `text` between two byte offsets.
pub open spec fn between(text: Seq<char>, from: int, to: int) -> Seq<char> {
    text.subrange(chars_before(text, from), chars_before(text, to))
}

/// The byte offset where the next hit in `lower` starts, from the byte offset
/// `pos` on.
pub open spec fn hit_start(lower: Seq<char>, needle: Seq<char>, pos: int) -> Option<int> {
    match first_occurrence(lower, needle, chars_before(lower, pos)) {
        Some(i) => Some(byte_len(lower.take(i)) as int),
        None => None,
    }
}

/// A hit does not start before where it is looked for.
pub proof fn lemma_hit_start(lower: Seq<char>, needle: Seq<char>, pos: int)
    requires
        is_boundary(lower, pos),
    ensures
        hit_start(lower, needle, pos) matches Some(b) ==> pos <= b <= byte_len(lower),
{
    let p = chars_before(lower, pos);
    lemma_first_occurrence(lower, needle, p);
    if let Some(i) = first_occurrence(lower, needle, p) {
        lemma_byte_len_grows(lower, p, i);
        lemma_byte_len_grows(lower, i, lower.len() as int);
        assert(lower.take(lower.len() as int) =~= lower);
    }
}

/// The pieces of `text` from the byte offset `pos` on: hits of `needle` in the
/// lower-case text, each `size` bytes long, in their own style, and what is
/// between them in the base style. Offsets in the lower-case text are taken for
/// offsets in the text; where one does not fall between two characters there is no
/// result.
pub open spec fn marked_from(
    text: Seq<char>,
    lower: Seq<char>,
    needle: Seq<char>,
    size: nat,
    base: Style,
    pos: int,
) -> Option<Seq<SpanModel>>
    decreases byte_len(lower) + size + 1 - pos,
{
    if !is_boundary(lower, pos) || size == 0 {
        None
    } else {
        proof {
            lemma_hit_start(lower, needle, pos);
        }
        match hit_start(lower, needle, pos) {
            None => if pos >= byte_len(text) {
                Some(Seq::empty())
            } else if is_boundary(text, pos) {
                Some(seq![styled(text.skip(chars_before(text, pos)), base)])
            } else {
                None
            },
            Some(start) => if (start == pos || is_boundary(text, pos)) && is_boundary(text, start)
                && is_boundary(text, (start + size) as int) {
                let head = if start > pos {
                    seq![styled(between(text, pos, start), base)]
                } else {
                    Seq::empty()
                };
                match marked_from(text, lower, needle, size, base, (start + size) as int) {
                    Some(rest) => Some(
                        head + seq![styled(between(text, start, (start + size) as int), hit_style())]
                            + rest,
                    ),
                    None => None,
                }
            } else {
                None
            },
        }
    }
}

/// Whether the content is searched for something.
pub open spec fn searches_content(search: SearchModel) -> bool {
    search.active && search.mode == SearchMode::Content && search.query.len() > 0
}

/// The pieces of a token: as it is, or with what is searched for marked.
pub open spec fn token_spans(token: (Seq<char>, Color), search: SearchModel) -> Option<Seq<SpanModel>> {
    let base = in_color(token.1);
    if searches_content(search) {
        marked_from(
            token.0,
            lowercase(token.0),
            lowercase(search.query),
            byte_len(search.query),
            base,
            0,
        )
    } else {
        Some(seq![styled(token.0, base)])
    }
}

/// The pieces of tokens, one token after the other.
pub open spec fn spans_of(tokens: Seq<(Seq<char>, Color)>, search: SearchModel) -> Option<Seq<SpanModel>>
    decreases tokens.len(),
{
    if tokens.len() == 0 {
        Some(Seq::empty())
    } else {
        match (spans_of(tokens.drop_last(), search), token_spans(tokens.last(), search)) {
            (Some(before), Some(last)) => Some(before + last),
            _ => None,
        }
    }
}

/// The pieces of a list, if there is one.
pub open spec fn spans_in(v: Option<Vec<Span>>) -> Option<Seq<SpanModel>> {
    match v {
        Some(spans) => Some(span_models(spans@)),
        None => None,
    }
}

fn push_span(spans: &mut Vec<Span>, span: Span)
    ensures
        span_models(final(spans)@) == span_models(old(spans)@).push(span@),
{
    spans.push(span);
    assert(span_models(spans@) =~= span_models(old(spans)@).push(span@));
}

/// What is still to come of the pieces, after those that there are.
spec fn still(before: Seq<SpanModel>, rest: Option<Seq<SpanModel>>) -> Option<Seq<SpanModel>> {
    match rest {
        Some(r) => Some(before + r),
        None => None,
    }
}

/// The pieces of a text, with the hits of `needle` in its lower-case form marked,
/// each `size` bytes long. `None` where a piece would start or end inside a
/// character.
pub fn mark_hits(text: &[char], lower: &[char], needle: &[char], size: u128, base: Style) -> (r: Option<
    Vec<Span>,
>)
    requires
        0 < size <= 4 * usize::MAX,
    ensures
        spans_in(r) == marked_from(text@, lower@, needle@, size as nat, base, 0),
{
    let mut spans: Vec<Span> = Vec::new();
    let mut pos: u128 = 0;
    let total = bytes_in(text);
    let ghost want = marked_from(text@, lower@, needle@, size as nat, base, 0);
    proof {
        assert(span_models(spans@) =~= Seq::empty());
        assert(still(span_models(spans@), want) == want) by {
            if let Some(w) = want {
                assert(Seq::<SpanModel>::empty() + w =~= w);
            }
        }
    }
    let whole = bytes_in(lower);
    let count = lower.len();
    loop
        invariant
            0 < size <= 4 * usize::MAX,
            count == lower@.len(),
            total == byte_len(text@),
            whole == byte_len(lower@),
            whole <= 4 * lower@.len(),
            pos <= whole + size,
            want == marked_from(text@, lower@, needle@, size as nat, base, 0),
            want == still(
                span_models(spans@),
                marked_from(text@, lower@, needle@, size as nat, base, pos as int),
            ),
        decreases whole + size + 1 - pos,
    {
        let ghost before = span_models(spans@);
        let p = match boundary(lower, pos) {
            Some(p) => p,
            None => {
                return None;
            },
        };
        proof {
            lemma_hit_start(lower@, needle@, pos as int);
        }
        match find_from(lower, needle, p) {
            None => {
                if pos >= total {
                    assert(span_models(spans@) =~= before + Seq::empty());
                    return Some(spans);
                }
                match boundary(text, pos) {
                    Some(k) => {
                        let rest = string_of(slice_subrange(text, k, text.len()));
                        assert(rest@ =~= text@.skip(k as int));
                        push_span(&mut spans, Span::styled(rest, base));
                        assert(span_models(spans@) =~= before + seq![styled(rest@, base)]);
                        return Some(spans);
                    },
                    None => {
                        return None;
                    },
                }
            },
            Some(i) => {
                let start = bytes_in(slice_subrange(lower, 0, i));
                let end = start + size;
                assert(lower@.subrange(0, i as int) =~= lower@.take(i as int));
                let (s, e) = match (boundary(text, start), boundary(text, end)) {
                    (Some(s), Some(e)) => (s, e),
                    _ => {
                        return None;
                    },
                };
                proof {
                    if s > e {
                        lemma_byte_len_grows(text@, e as int, s as int);
                    }
                }
                let ghost mut head: Seq<SpanModel> = Seq::empty();
                if start > pos {
                    match boundary(text, pos) {
                        Some(k) => {
                            proof {
                                if k > s {
                                    lemma_byte_len_grows(text@, s as int, k as int);
                                }
                            }
                            let gap = string_of(slice_subrange(text, k, s));
                            assert(gap@ =~= between(text@, pos as int, start as int));
                            push_span(&mut spans, Span::styled(gap, base));
                            proof {
                                head = seq![styled(gap@, base)];
                            }
                        },
                        None => {
                            return None;
                        },
                    }
                }
                let hit = string_of(slice_subrange(text, s, e));
                assert(hit@ =~= between(text@, start as int, end as int));
                let style = Style {
                    fg: Some(Color::Black),
                    bg: Some(Color::Yellow),
                    underline: None,
                    add: 0,
                    sub: 0,
                };
                push_span(&mut spans, Span::styled(hit, style));
                proof {
                    let done = head + seq![styled(hit@, hit_style())];
                    assert(span_models(spans@) =~= before + done);
                    let rest = marked_from(text@, lower@, needle@, size as nat, base, end as int);
                    if let Some(r) = rest {
                        assert((before + done) + r =~= before + (done + r));
                    }
                }
                pos = end;
            },
        }
    }
}

/// The pieces of a token.
fn draw_token(token: &Token, search: &SearchState) -> (r: Option<Vec<Span>>)
    ensures
        spans_in(r) == token_spans((token.0@, token.1), search@),
{
    let base = Style::fg(token.1);
    let searching = search.active && search.mode == SearchMode::Content && !search.query.as_str().is_empty();
    if searching {
        let text = chars_of(token.0.as_str());
        let query = chars_of(search.query.as_str());
        let lower_text = lowered(text.as_slice());
        let lower_query = lowered(query.as_slice());
        let size = bytes_in(query.as_slice());
        let count = query.len();
        proof {
            lemma_byte_len_grows(query@, 0, query@.len() as int);
            assert(query@.take(query@.len() as int) =~= query@);
        }
        mark_hits(text.as_slice(), lower_text.as_slice(), lower_query.as_slice(), size, base)
    } else {
        let mut spans: Vec<Span> = Vec::new();
        spans.push(Span::styled(token.0.clone(), base));
        assert(span_models(spans@) =~= seq![styled(token.0@, base)]);
        Some(spans)
    }
}

fn append_spans(to: &mut Vec<Span>, from: Vec<Span>)
    ensures
        span_models(final(to)@) == span_models(old(to)@) + span_models(from@),
{
    let mut rest = from;
    let ghost before = to@;
    to.append(&mut rest);
    assert(span_models(to@) =~= span_models(before) + span_models(from@));
}

// ---- Rows --------------------------------------------------------------------

/// A line number in four columns, right-aligned; blanks where there is none.
pub open spec fn old_number(line: Option<usize>) -> Seq<char> {
    match line {
        Some(n) => padded_left(decimal(n as nat), 4, ' '),
        None => "    "@,
    }
}

/// A line number in four columns, left-aligned; blanks where there is none.
pub open spec fn new_number(line: Option<usize>) -> Seq<char> {
    match line {
        Some(n) => padded_right(decimal(n as nat), 4, ' '),
        None => "    "@,
    }
}

/// The mark before a line.
pub open spec fn line_mark(kind: DiffLineType) -> SpanModel {
    match kind {
        DiffLineType::Add => styled("+"@, in_color(Color::Green)),
        DiffLineType::Remove => styled("-"@, in_color(Color::Red)),
        DiffLineType::Context => styled(" "@, in_color(Color::DarkGray)),
    }
}

/// What stands before a line: its numbers, if they are shown, and its mark.
pub open spec fn line_head(line: LineModel, show_line_numbers: bool) -> Seq<SpanModel> {
    let numbers = styled(
        old_number(line.old_line) + " "@ + new_number(line.new_line) + " "@,
        in_color(Color::DarkGray),
    );
    if show_line_numbers {
        seq![numbers, line_mark(line.kind)]
    } else {
        seq![line_mark(line.kind)]
    }
}

/// The row of a line, whose tokens are given.
pub open spec fn line_row(
    line: LineModel,
    tokens: Seq<(Seq<char>, Color)>,
    search: SearchModel,
    show_line_numbers: bool,
) -> Option<Seq<SpanModel>> {
    match spans_of(tokens, search) {
        Some(spans) => Some(line_head(line, show_line_numbers) + spans),
        None => None,
    }
}

/// The row of a line of the file `path`, in a theme.
pub open spec fn diff_row(
    line: LineModel,
    path: Seq<char>,
    theme: Seq<char>,
    search: SearchModel,
    show_line_numbers: bool,
) -> Option<Seq<SpanModel>> {
    line_row(line, line_tokens(expanded(line.content), path, theme), search, show_line_numbers)
}

/// The rows of the first `k` lines of a hunk.
pub open spec fn line_rows(
    lines: Seq<LineModel>,
    k: int,
    path: Seq<char>,
    theme: Seq<char>,
    search: SearchModel,
    show_line_numbers: bool,
) -> Option<Seq<Seq<SpanModel>>>
    decreases k,
{
    if k <= 0 {
        Some(Seq::empty())
    } else {
        match (
            line_rows(lines, k - 1, path, theme, search, show_line_numbers),
            diff_row(lines[k - 1], path, theme, search, show_line_numbers),
        ) {
            (Some(before), Some(row)) => Some(before.push(row)),
            _ => None,
        }
    }
}

/// The rows of the first `k` hunks: the header of each, then its lines.
pub open spec fn hunk_rows(
    hunks: Seq<HunkModel>,
    k: int,
    path: Seq<char>,
    theme: Seq<char>,
    search: SearchModel,
    show_line_numbers: bool,
) -> Option<Seq<Seq<SpanModel>>>
    decreases k,
{
    if k <= 0 {
        Some(Seq::empty())
    } else {
        let lines = hunks[k - 1].lines;
        match (
            hunk_rows(hunks, k - 1, path, theme, search, show_line_numbers),
            line_rows(lines, lines.len() as int, path, theme, search, show_line_numbers),
        ) {
            (Some(before), Some(rows)) => Some(
                before.push(seq![styled(hunks[k - 1].header, in_color(Color::Cyan))]) + rows,
            ),
            _ => None,
        }
    }
}

/// The rows above the hunks: the path with its additions and deletions, and a gap.
pub open spec fn diff_head(file: FileModel) -> Seq<Seq<SpanModel>> {
    seq![
        seq![
            styled(
                " "@ + file.path + " [+"@ + decimal(count_of(file.hunks, DiffLineType::Add)) + "-"@
                    + decimal(count_of(file.hunks, DiffLineType::Remove)) + "] "@,
                Style { fg: Some(Color::White), bg: Some(Color::DarkGray), ..plain() },
            ),
        ],
        Seq::empty(),
    ]
}

/// The rows of the diff of a file. There are none where something that is searched
/// for cannot be marked.
pub open spec fn diff_rows(
    file: FileModel,
    theme: Seq<char>,
    search: SearchModel,
    show_line_numbers: bool,
) -> Option<Seq<Seq<SpanModel>>> {
    match hunk_rows(
        file.hunks,
        file.hunks.len() as int,
        file.path,
        theme,
        search,
        show_line_numbers,
    ) {
        Some(rows) => Some(diff_head(file) + rows),
        None => None,
    }
}

fn push_padded(text: &mut String, n: usize, left: bool)
    ensures
        final(text)@ == old(text)@ + (if left {
            padded_left(decimal(n as nat), 4, ' ')
        } else {
            padded_right(decimal(n as nat), 4, ' ')
        }),
{
    let mut digits = String::new();
    push_decimal(&mut digits, n as u128);
    assert(digits@ =~= decimal(n as nat));
    let size = chars_of(digits.as_str()).len();
    let fill = if size < 4 {
        4 - size
    } else {
        0
    };
    if left {
        push_repeated(text, ' ', fill);
        push_text(text, digits.as_str());
    } else {
        push_text(text, digits.as_str());
        push_repeated(text, ' ', fill);
    }
    assert(text@ =~= old(text)@ + (if left {
        padded_left(decimal(n as nat), 4, ' ')
    } else {
        padded_right(decimal(n as nat), 4, ' ')
    }));
}

fn draw_head(line: &DiffLine, show_line_numbers: bool) -> (r: Vec<Span>)
    ensures
        span_models(r@) == line_head(line@, show_line_numbers),
{
    let mut spans: Vec<Span> = Vec::new();
    if show_line_numbers {
        let mut text = String::new();
        match line.old_line {
            Some(n) => push_padded(&mut text, n, true),
            None => push_text(&mut text, "    "),
        }
        assert(text@ =~= old_number(line.old_line));
        push_text(&mut text, " ");
        match line.new_line {
            Some(n) => push_padded(&mut text, n, false),
            None => push_text(&mut text, "    "),
        }
        push_text(&mut text, " ");
        assert(text@ =~= old_number(line.old_line) + " "@ + new_number(line.new_line) + " "@);
        spans.push(Span::styled(text, Style::fg(Color::DarkGray)));
    }
    let mark = match line.kind {
        DiffLineType::Add => Span::styled("+".to_string(), Style::fg(Color::Green)),
        DiffLineType::Remove => Span::styled("-".to_string(), Style::fg(Color::Red)),
        DiffLineType::Context => Span::styled(" ".to_string(), Style::fg(Color::DarkGray)),
    };
    spans.push(mark);
    assert(span_models(spans@) =~= line_head(line@, show_line_numbers));
    spans
}

/// The row of a line, whose tokens are given. `None` where something that is
/// searched for cannot be marked.
pub fn draw_line(line: &DiffLine, tokens: &[Token], search: &SearchState, show_line_numbers: bool) -> (r: Option<
    Line,
>)
    ensures
        match r {
            Some(l) => line_row(line@, token_models(tokens@), search@, show_line_numbers) == Some(l@),
            None => line_row(line@, token_models(tokens@), search@, show_line_numbers) is None,
        },
{
    let mut spans = draw_head(line, show_line_numbers);
    match DiffView::build_spans(tokens, search) {
        Some(rest) => {
            append_spans(&mut spans, rest);
            Some(Line { spans })
        },
        None => None,
    }
}

impl DiffView {
    pub fn new() -> (r: DiffView)
        ensures
            r.scroll_offset == 0,
            r.h_scroll == 0,
    {
        DiffView { scroll_offset: 0, h_scroll: 0 }
    }

    /// The pieces of tokens, with what is searched for marked. `None` where a piece
    /// would start or end inside a character.
    pub fn build_spans(tokens: &[Token], search: &SearchState) -> (r: Option<Vec<Span>>)
        ensures
            spans_in(r) == spans_of(token_models(tokens@), search@),
    {
        let mut spans: Vec<Span> = Vec::new();
        let ghost all = token_models(tokens@);
        let mut i: usize = 0;
        assert(span_models(spans@) =~= Seq::empty());
        assert(all.take(0) =~= Seq::empty());
        while i < tokens.len()
            invariant
                i <= tokens@.len(),
                all == token_models(tokens@),
                spans_of(all.take(i as int), search@) == Some(span_models(spans@)),
            decreases tokens@.len() - i,
        {
            proof {
                assert(all.take(i + 1).drop_last() =~= all.take(i as int));
                assert(all.take(i + 1).last() == (tokens@[i as int].0@, tokens@[i as int].1));
            }
            match draw_token(&tokens[i], search) {
                Some(more) => append_spans(&mut spans, more),
                None => {
                    proof {
                        lemma_no_spans(all, i + 1, search@);
                    }
                    return None;
                },
            }
            i += 1;
        }
        assert(all.take(i as int) =~= all);
        Some(spans)
    }

    /// The rows of the diff of a file on an area of the given height, borders
    /// included, and how far they are scrolled. `None` where something that is
    /// searched for cannot be marked.
    pub fn render(
        &self,
        height: u16,
        file: &FileDiff,
        search: &SearchState,
        show_line_numbers: bool,
        highlighter: &Highlighter,
    ) -> (r: Option<(Vec<Line>, u16)>)
        requires
            highlighter.wf(),
        ensures
            match r {
                Some((lines, scroll)) => {
                    &&& diff_rows(file@, highlighter.theme(), search@, show_line_numbers) == Some(
                        line_models(lines@),
                    )
                    &&& scroll == scroll_in(lines@.len() as int, height, self.scroll_offset)
                },
                None => diff_rows(file@, highlighter.theme(), search@, show_line_numbers) is None,
            },
    {
        let mut lines = draw_diff_head(file);
        let ghost head = line_models(lines@);
        let ghost theme = highlighter.theme();
        let ghost hunks = file@.hunks;
        let mut h: usize = 0;
        assert(head + Seq::<Seq<SpanModel>>::empty() =~= head);
        while h < file.hunks.len()
            invariant
                highlighter.wf(),
                theme == highlighter.theme(),
                hunks == file@.hunks,
                h <= file.hunks@.len(),
                head == diff_head(file@),
                hunk_rows(hunks, h as int, file@.path, theme, search@, show_line_numbers) is Some,
                line_models(lines@) == head + hunk_rows(
                    hunks,
                    h as int,
                    file@.path,
                    theme,
                    search@,
                    show_line_numbers,
                ).unwrap(),
            decreases file.hunks@.len() - h,
        {
            let hunk = &file.hunks[h];
            assert(hunks[h as int] == hunk@);
            let ghost before = line_models(lines@);
            match draw_hunk(hunk, file.path.as_str(), search, show_line_numbers, highlighter) {
                Some(rows) => {
                    let ghost new_rows = line_models(rows@);
                    append_lines(&mut lines, rows);
                    proof {
                        let so_far = hunk_rows(
                            hunks,
                            h as int,
                            file@.path,
                            theme,
                            search@,
                            show_line_numbers,
                        ).unwrap();
                        let next = hunk_rows(
                            hunks,
                            h + 1,
                            file@.path,
                            theme,
                            search@,
                            show_line_numbers,
                        ).unwrap();
                        assert(head + so_far + new_rows =~= head + next);
                    }
                },
                None => {
                    proof {
                        lemma_no_hunk_rows(hunks, h + 1, hunks.len() as int, file@.path, theme, search@, show_line_numbers);
                    }
                    return None;
                },
            }
            h += 1;
        }
        let scroll = clamp_scroll(lines.len(), height, self.scroll_offset);
        Some((lines, scroll))
    }
}

/// Where a token has no pieces, neither has a list that starts with it.
proof fn lemma_no_spans(tokens: Seq<(Seq<char>, Color)>, k: int, search: SearchModel)
    requires
        0 <= k <= tokens.len(),
        spans_of(tokens.take(k), search) is None,
    ensures
        spans_of(tokens, search) is None,
    decreases tokens.len() - k,
{
    if k < tokens.len() {
        assert(tokens.take(k + 1).drop_last() =~= tokens.take(k));
        lemma_no_spans(tokens, k + 1, search);
    } else {
        assert(tokens.take(k) =~= tokens);
    }
}

proof fn lemma_no_line_rows(
    lines: Seq<LineModel>,
    k: int,
    n: int,
    path: Seq<char>,
    theme: Seq<char>,
    search: SearchModel,
    show_line_numbers: bool,
)
    requires
        k <= n,
        line_rows(lines, k, path, theme, search, show_line_numbers) is None,
    ensures
        line_rows(lines, n, path, theme, search, show_line_numbers) is None,
    decreases n - k,
{
    if k < n {
        lemma_no_line_rows(lines, k, n - 1, path, theme, search, show_line_numbers);
    }
}

proof fn lemma_no_hunk_rows(
    hunks: Seq<HunkModel>,
    k: int,
    n: int,
    path: Seq<char>,
    theme: Seq<char>,
    search: SearchModel,
    show_line_numbers: bool,
)
    requires
        k <= n,
        hunk_rows(hunks, k, path, theme, search, show_line_numbers) is None,
    ensures
        hunk_rows(hunks, n, path, theme, search, show_line_numbers) is None,
    decreases n - k,
{
    if k < n {
        lemma_no_hunk_rows(hunks, k, n - 1, path, theme, search, show_line_numbers);
    }
}

fn append_lines(to: &mut Vec<Line>, from: Vec<Line>)
    ensures
        line_models(final(to)@) == line_models(old(to)@) + line_models(from@),
{
    let mut rest = from;
    let ghost before = to@;
    to.append(&mut rest);
    assert(line_models(to@) =~= line_models(before) + line_models(from@));
}

fn draw_diff_head(file: &FileDiff) -> (lines: Vec<Line>)
    ensures
        line_models(lines@) == diff_head(file@),
{
    let mut text = " ".to_string();
    push_text(&mut text, file.path.as_str());
    push_text(&mut text, " [+");
    push_decimal(&mut text, file.count(DiffLineType::Add));
    push_text(&mut text, "-");
    push_decimal(&mut text, file.count(DiffLineType::Remove));
    push_text(&mut text, "] ");
    let style = Style {
        fg: Some(Color::White),
        bg: Some(Color::DarkGray),
        underline: None,
        add: 0,
        sub: 0,
    };
    let mut lines: Vec<Line> = Vec::new();
    lines.push(Line::of(Span::styled(text, style)));
    lines.push(Line::empty());
    assert(line_models(lines@) =~= diff_head(file@));
    lines
}

/// The lines of a hunk, with their tabs expanded.
fn expand_lines(lines: &[DiffLine]) -> (r: Vec<String>)
    ensures
        r@.len() == lines@.len(),
        forall|i: int| 0 <= i < r@.len() ==> (#[trigger] r@[i])@ == expanded(lines@[i].content@),
{
    let mut r: Vec<String> = Vec::new();
    let mut i: usize = 0;
    while i < lines.len()
        invariant
            i <= lines@.len(),
            r@.len() == i,
            forall|j: int| 0 <= j < i ==> (#[trigger] r@[j])@ == expanded(lines@[j].content@),
        decreases lines@.len() - i,
    {
        let chars = chars_of(lines[i].content.as_str());
        r.push(expand_tabs(chars.as_slice()));
        i += 1;
    }
    r
}

/// The rows of a hunk: its header, then its lines.
fn draw_hunk(
    hunk: &Hunk,
    path: &str,
    search: &SearchState,
    show_line_numbers: bool,
    highlighter: &Highlighter,
) -> (r: Option<Vec<Line>>)
    requires
        highlighter.wf(),
    ensures
        ({
            let rows = line_rows(
                hunk@.lines,
                hunk@.lines.len() as int,
                path@,
                highlighter.theme(),
                search@,
                show_line_numbers,
            );
            match r {
                Some(lines) => rows is Some && line_models(lines@) == seq![
                    seq![styled(hunk@.header, in_color(Color::Cyan))],
                ] + rows.unwrap(),
                None => rows is None,
            }
        }),
{
    let mut rows: Vec<Line> = Vec::new();
    rows.push(Line::of(Span::styled(hunk.header.clone(), Style::fg(Color::Cyan))));
    let ghost head = line_models(rows@);
    let ghost theme = highlighter.theme();
    assert(head =~= seq![seq![styled(hunk@.header, in_color(Color::Cyan))]]);
    let contents = expand_lines(hunk.lines.as_slice());
    let tokens = highlighter.highlight_lines(contents.as_slice(), path);
    let mut i: usize = 0;
    assert(head + Seq::<Seq<SpanModel>>::empty() =~= head);
    while i < hunk.lines.len()
        invariant
            theme == highlighter.theme(),
            contents@.len() == hunk.lines@.len(),
            tokens@.len() == contents@.len(),
            forall|j: int|
                0 <= j < contents@.len() ==> (#[trigger] contents@[j])@ == expanded(
                    hunk.lines@[j].content@,
                ),
            forall|j: int|
                0 <= j < tokens@.len() ==> token_models((#[trigger] tokens@[j])@) == line_tokens(
                    contents@[j]@,
                    path@,
                    theme,
                ),
            i <= hunk.lines@.len(),
            line_rows(hunk@.lines, i as int, path@, theme, search@, show_line_numbers) is Some,
            line_models(rows@) == head + line_rows(
                hunk@.lines,
                i as int,
                path@,
                theme,
                search@,
                show_line_numbers,
            ).unwrap(),
        decreases hunk.lines@.len() - i,
    {
        let line = &hunk.lines[i];
        assert(hunk@.lines[i as int] == line@);
        assert(token_models(tokens@[i as int]@) == line_tokens(expanded(line@.content), path@, theme));
        match draw_line(line, tokens[i].as_slice(), search, show_line_numbers) {
            Some(row) => {
                let ghost before = line_models(rows@);
                rows.push(row);
                proof {
                    assert(line_models(rows@) =~= before.push(row@));
                    let so_far = line_rows(hunk@.lines, i as int, path@, theme, search@, show_line_numbers).unwrap();
                    assert((head + so_far).push(row@) =~= head + so_far.push(row@));
                }
            },
            None => {
                proof {
                    lemma_no_line_rows(
                        hunk@.lines,
                        i + 1,
                        hunk@.lines.len() as int,
                        path@,
                        theme,
                        search@,
                        show_line_numbers,
                    );
                }
                return None;
            },
        }
        i += 1;
    }
    Some(rows)
}

// ---- What marking promises ---------------------------------------------------

proof fn lemma_line_text_add(a: Seq<SpanModel>, b: Seq<SpanModel>)
    ensures
        line_text(a + b) == line_text(a) + line_text(b),
    decreases b.len(),
{
    if b.len() == 0 {
        assert(a + b =~= a);
        assert(line_text(a) + line_text(b) =~= line_text(a));
    } else {
        lemma_line_text_add(a, b.drop_last());
        assert((a + b).drop_last() =~= a + b.drop_last());
        assert(line_text(a + b) =~= line_text(a) + line_text(b));
    }
}

proof fn lemma_line_text_one(span: SpanModel)
    ensures
        line_text(seq![span]) == span.content,
{
    assert(seq![span].drop_last() =~= Seq::empty());
    assert(line_text(Seq::<SpanModel>::empty()) =~= Seq::empty());
    assert(line_text(seq![span]) =~= span.content);
}

proof fn lemma_marked_text(
    text: Seq<char>,
    lower: Seq<char>,
    needle: Seq<char>,
    size: nat,
    base: Style,
    pos: int,
)
    requires
        is_boundary(text, pos),
        marked_from(text, lower, needle, size, base, pos) is Some,
    ensures
        line_text(marked_from(text, lower, needle, size, base, pos).unwrap()) == text.skip(
            chars_before(text, pos),
        ),
    decreases byte_len(lower) + size + 1 - pos,
{
    lemma_hit_start(lower, needle, pos);
    let k = chars_before(text, pos);
    let all = marked_from(text, lower, needle, size, base, pos).unwrap();
    match hit_start(lower, needle, pos) {
        None => {
            if pos >= byte_len(text) {
                lemma_byte_len_grows(text, k, text.len() as int);
                assert(text.take(text.len() as int) =~= text);
                assert(text.skip(k) =~= Seq::empty());
            } else {
                lemma_line_text_one(styled(text.skip(k), base));
            }
        },
        Some(start) => {
            let end = (start + size) as int;
            let (s, e) = (chars_before(text, start), chars_before(text, end));
            lemma_marked_text(text, lower, needle, size, base, end);
            let rest = marked_from(text, lower, needle, size, base, end).unwrap();
            let head = if start > pos {
                seq![styled(between(text, pos, start), base)]
            } else {
                Seq::empty()
            };
            let hit = seq![styled(between(text, start, end), hit_style())];
            if s < k {
                lemma_byte_len_grows(text, s, k);
            }
            if e < s {
                lemma_byte_len_grows(text, e, s);
            }
            lemma_line_text_add(head, hit);
            lemma_line_text_add(head + hit, rest);
            lemma_line_text_one(hit[0]);
            if start > pos {
                lemma_line_text_one(head[0]);
            }
            assert(line_text(all) =~= text.skip(k));
        },
    }
}

/// Marking what is searched for changes the styles of a line and never its text.
pub proof fn marking_keeps_the_text(tokens: Seq<(Seq<char>, Color)>, search: SearchModel)
    requires
        spans_of(tokens, search) is Some,
    ensures
        line_text(spans_of(tokens, search).unwrap()) == concatenated(token_texts(tokens)),
    decreases tokens.len(),
{
    if tokens.len() > 0 {
        let (init, last) = (tokens.drop_last(), tokens.last());
        marking_keeps_the_text(init, search);
        let spans = token_spans(last, search).unwrap();
        assert(token_texts(tokens).drop_last() =~= token_texts(init));
        lemma_line_text_add(spans_of(init, search).unwrap(), spans);
        if searches_content(search) {
            assert(last.0.take(0) =~= Seq::empty());
            lemma_boundary_unique(last.0, 0, 0);
            lemma_marked_text(
                last.0,
                lowercase(last.0),
                lowercase(search.query),
                byte_len(search.query),
                in_color(last.1),
                0,
            );
            assert(last.0.skip(0) =~= last.0);
        } else {
            lemma_line_text_one(styled(last.0, in_color(last.1)));
        }
    }
}

// ---- What marking and drawing promise ----------------------------------------

/// How many bytes the first `k` pieces take.
pub open spec fn bytes_before(spans: Seq<SpanModel>, k: int) -> int {
    byte_len(line_text(spans.take(k))) as int
}

/// Whether pieces that start at the byte offset `pos` of a text mark the needle where it
/// stands in the lower-case text, and nothing else: a marked piece starts where the
/// needle stands, and the needle stands nowhere in a piece that is not marked.
pub open spec fn marks_hits(spans: Seq<SpanModel>, lower: Seq<char>, needle: Seq<char>, pos: int) -> bool {
    forall|k: int, i: int|
        #![trigger spans[k], lower.take(i)]
        0 <= k < spans.len() && 0 <= i <= lower.len() ==> {
            let at = byte_len(lower.take(i));
            &&& spans[k].style == hit_style() && at == pos + bytes_before(spans, k) ==> occurs_at(lower, needle, i)
            &&& spans[k].style != hit_style() && pos + bytes_before(spans, k) <= at < pos + bytes_before(spans, k + 1)
                ==> !occurs_at(lower, needle, i)
        }
}

/// The text between two offsets, as a length in bytes.
proof fn lemma_between(text: Seq<char>, from: int, to: int)
    requires
        is_boundary(text, from),
        is_boundary(text, to),
        from <= to,
    ensures
        ({
            let (a, b) = (chars_before(text, from), chars_before(text, to));
            &&& 0 <= a <= b <= text.len()
            &&& byte_len(between(text, from, to)) == to - from
            &&& text.skip(a) == between(text, from, to) + text.skip(b)
        }),
{
    let (a, b) = (chars_before(text, from), chars_before(text, to));
    assert(0 <= a <= text.len() && byte_len(text.take(a)) == from);
    assert(0 <= b <= text.len() && byte_len(text.take(b)) == to);
    if b < a {
        lemma_byte_len_grows(text, b, a);
    }
    lemma_byte_len_add(text.take(a), between(text, from, to));
    assert(text.take(b) =~= text.take(a) + between(text, from, to));
    assert(text.skip(a) =~= between(text, from, to) + text.skip(b));
}

/// The byte offset in the lower-case text tells where the needle stands.
proof fn lemma_hits(lower: Seq<char>, needle: Seq<char>, pos: int, i: int)
    requires
        is_boundary(lower, pos),
        0 <= i <= lower.len(),
        pos <= byte_len(lower.take(i)),
    ensures
        hit_start(lower, needle, pos) matches Some(start) ==> {
            &&& byte_len(lower.take(i)) < start ==> !occurs_at(lower, needle, i)
            &&& byte_len(lower.take(i)) == start ==> occurs_at(lower, needle, i)
        },
        hit_start(lower, needle, pos) is None ==> !occurs_at(lower, needle, i),
{
    let p = chars_before(lower, pos);
    assert(0 <= p <= lower.len() && byte_len(lower.take(p)) == pos);
    if i < p {
        lemma_byte_len_grows(lower, i, p);
    }
    lemma_first_occurrence(lower, needle, p);
    if let Some(j) = first_occurrence(lower, needle, p) {
        if i < j {
            lemma_byte_len_grows(lower, i, j);
        } else if j < i {
            lemma_byte_len_grows(lower, j, i);
        }
    }
}

proof fn lemma_marked(
    text: Seq<char>,
    lower: Seq<char>,
    needle: Seq<char>,
    size: nat,
    base: Style,
    pos: int,
)
    requires
        base != hit_style(),
        is_boundary(text, pos) || pos >= byte_len(text),
        marked_from(text, lower, needle, size, base, pos) is Some,
    ensures
        ({
            let spans = marked_from(text, lower, needle, size, base, pos).unwrap();
            &&& pos <= byte_len(text) ==> line_text(spans) == text.skip(chars_before(text, pos))
            &&& pos > byte_len(text) ==> spans.len() == 0
            &&& marks_hits(spans, lower, needle, pos)
        }),
    decreases byte_len(lower) + size + 1 - pos,
{
    lemma_hit_start(lower, needle, pos);
    match hit_start(lower, needle, pos) {
        None => {
            lemma_marked_end(text, lower, needle, size, base, pos);
        },
        Some(start) => {
            let end = (start + size) as int;
            lemma_in_text(text, start);
            lemma_in_text(text, end);
            lemma_marked(text, lower, needle, size, base, end);
            lemma_marked_step(text, lower, needle, size, base, pos, start);
        },
    }
}

/// Where nothing more is found.
proof fn lemma_marked_end(
    text: Seq<char>,
    lower: Seq<char>,
    needle: Seq<char>,
    size: nat,
    base: Style,
    pos: int,
)
    requires
        base != hit_style(),
        is_boundary(lower, pos),
        hit_start(lower, needle, pos) is None,
        marked_from(text, lower, needle, size, base, pos) is Some,
    ensures
        ({
            let spans = marked_from(text, lower, needle, size, base, pos).unwrap();
            &&& pos <= byte_len(text) ==> line_text(spans) == text.skip(chars_before(text, pos))
            &&& pos > byte_len(text) ==> spans.len() == 0
            &&& marks_hits(spans, lower, needle, pos)
        }),
{
    let spans = marked_from(text, lower, needle, size, base, pos).unwrap();
    let none = Seq::<SpanModel>::empty();
    assert forall|k: int, i: int|
        #![trigger spans[k], lower.take(i)]
        0 <= k < spans.len() && 0 <= i <= lower.len() implies {
        let at = byte_len(lower.take(i));
        &&& spans[k].style == hit_style() && at == pos + bytes_before(spans, k) ==> occurs_at(lower, needle, i)
        &&& spans[k].style != hit_style() && pos + bytes_before(spans, k) <= at < pos + bytes_before(spans, k + 1)
            ==> !occurs_at(lower, needle, i)
    } by {
        if pos <= byte_len(lower.take(i)) {
            lemma_hits(lower, needle, pos, i);
        }
    }
    lemma_whole(text);
    if pos >= byte_len(text) {
        if pos == byte_len(text) {
            assert(line_text(spans) =~= text.skip(text.len() as int));
        }
    } else {
        line_text_adds_up(none, none, spans[0]);
        assert(spans =~= seq![spans[0]]);
    }
}

/// Where something is found, with the rest behind it.
proof fn lemma_marked_step(
    text: Seq<char>,
    lower: Seq<char>,
    needle: Seq<char>,
    size: nat,
    base: Style,
    pos: int,
    start: int,
)
    requires
        base != hit_style(),
        is_boundary(lower, pos),
        is_boundary(text, pos) || pos >= byte_len(text),
        pos <= start,
        start + size <= byte_len(text),
        hit_start(lower, needle, pos) == Some(start),
        marked_from(text, lower, needle, size, base, pos) is Some,
        ({
            let end = (start + size) as int;
            let rest = marked_from(text, lower, needle, size, base, end).unwrap();
            &&& line_text(rest) == text.skip(chars_before(text, end))
            &&& marks_hits(rest, lower, needle, end)
        }),
    ensures
        ({
            let spans = marked_from(text, lower, needle, size, base, pos).unwrap();
            &&& line_text(spans) == text.skip(chars_before(text, pos))
            &&& marks_hits(spans, lower, needle, pos)
        }),
{
    let spans = marked_from(text, lower, needle, size, base, pos).unwrap();
    let end = (start + size) as int;
    let rest = marked_from(text, lower, needle, size, base, end).unwrap();
    let hit = seq![styled(between(text, start, end), hit_style())];
    lemma_between(text, start, end);
    line_text_adds_up(hit, rest, hit[0]);
    lemma_marks_hit(hit, rest, lower, needle, start, size as int, pos);
    if start > pos {
        lemma_between(text, pos, start);
        let head = seq![styled(between(text, pos, start), base)];
        line_text_adds_up(head, hit + rest, head[0]);
        assert(spans =~= head + (hit + rest));
        lemma_marks_head(head, hit + rest, lower, needle, pos, start);
    } else {
        assert(spans =~= hit + rest);
    }
}

proof fn lemma_whole(text: Seq<char>)
    ensures
        is_boundary(text, byte_len(text) as int),
        chars_before(text, byte_len(text) as int) == text.len(),
{
    assert(text.take(text.len() as int) =~= text);
    lemma_boundary_unique(text, byte_len(text) as int, text.len() as int);
}

proof fn lemma_in_text(text: Seq<char>, b: int)
    requires
        is_boundary(text, b),
    ensures
        0 <= b <= byte_len(text),
{
    let k = chars_before(text, b);
    lemma_byte_len_grows(text, k, text.len() as int);
    assert(text.take(text.len() as int) =~= text);
}

/// The offsets of pieces behind a first one.
proof fn lemma_bytes_before(one: Seq<SpanModel>, rest: Seq<SpanModel>, k: int)
    requires
        one.len() == 1,
        0 <= k <= rest.len(),
    ensures
        bytes_before(one + rest, k + 1) == byte_len(one[0].content) + bytes_before(rest, k),
        bytes_before(one + rest, 0) == 0,
{
    let all = one + rest;
    assert(all.take(k + 1) =~= one + rest.take(k));
    line_text_adds_up(one, rest.take(k), one[0]);
    assert(one =~= seq![one[0]]);
    lemma_byte_len_add(one[0].content, line_text(rest.take(k)));
    assert(line_text(all.take(0)) =~= Seq::<char>::empty());
}

proof fn lemma_marks_hit(
    hit: Seq<SpanModel>,
    rest: Seq<SpanModel>,
    lower: Seq<char>,
    needle: Seq<char>,
    start: int,
    size: int,
    pos: int,
)
    requires
        hit.len() == 1,
        hit[0].style == hit_style(),
        byte_len(hit[0].content) == size,
        is_boundary(lower, pos),
        pos <= start,
        hit_start(lower, needle, pos) == Some(start),
        marks_hits(rest, lower, needle, start + size),
    ensures
        marks_hits(hit + rest, lower, needle, start),
{
    let all = hit + rest;
    assert forall|k: int, i: int|
        #![trigger all[k], lower.take(i)]
        0 <= k < all.len() && 0 <= i <= lower.len() implies {
        let at = byte_len(lower.take(i));
        &&& all[k].style == hit_style() && at == start + bytes_before(all, k) ==> occurs_at(lower, needle, i)
        &&& all[k].style != hit_style() && start + bytes_before(all, k) <= at < start + bytes_before(all, k + 1)
            ==> !occurs_at(lower, needle, i)
    } by {
        if k == 0 {
            lemma_bytes_before(hit, rest, 0);
            if byte_len(lower.take(i)) == start {
                lemma_hits(lower, needle, pos, i);
            }
        } else {
            lemma_bytes_before(hit, rest, k - 1);
            lemma_bytes_before(hit, rest, k);
            assert(all[k] == rest[k - 1]);
            assert(rest[k - 1] == rest[k - 1] && lower.take(i) == lower.take(i));
        }
    }
}

proof fn lemma_marks_head(
    head: Seq<SpanModel>,
    rest: Seq<SpanModel>,
    lower: Seq<char>,
    needle: Seq<char>,
    pos: int,
    start: int,
)
    requires
        head.len() == 1,
        head[0].style != hit_style(),
        byte_len(head[0].content) == start - pos,
        is_boundary(lower, pos),
        hit_start(lower, needle, pos) == Some(start),
        marks_hits(rest, lower, needle, start),
    ensures
        marks_hits(head + rest, lower, needle, pos),
{
    let all = head + rest;
    assert forall|k: int, i: int|
        #![trigger all[k], lower.take(i)]
        0 <= k < all.len() && 0 <= i <= lower.len() implies {
        let at = byte_len(lower.take(i));
        &&& all[k].style == hit_style() && at == pos + bytes_before(all, k) ==> occurs_at(lower, needle, i)
        &&& all[k].style != hit_style() && pos + bytes_before(all, k) <= at < pos + bytes_before(all, k + 1)
            ==> !occurs_at(lower, needle, i)
    } by {
        if k == 0 {
            lemma_bytes_before(head, rest, 0);
            assert(bytes_before(rest, 0) == 0) by {
                assert(line_text(rest.take(0)) =~= Seq::<char>::empty());
            }
            if pos <= byte_len(lower.take(i)) {
                lemma_hits(lower, needle, pos, i);
            }
        } else {
            lemma_bytes_before(head, rest, k - 1);
            lemma_bytes_before(head, rest, k);
            assert(all[k] == rest[k - 1]);
        }
    }
}

/// A token that is searched shows its text, all of it and in order; what is searched for
/// is marked wherever it stands in the lower-case text, and nothing else is.
pub proof fn searched_token_is_marked(text: Seq<char>, color: Color, search: SearchModel)
    requires
        token_spans((text, color), search) is Some,
    ensures
        line_text(token_spans((text, color), search).unwrap()) == text,
        search.active && search.mode == SearchMode::Content && search.query.len() > 0 ==> marks_hits(
            token_spans((text, color), search).unwrap(),
            lowercase(text),
            lowercase(search.query),
            0,
        ),
{
    let base = in_color(color);
    let none = Seq::<SpanModel>::empty();
    line_text_adds_up(none, none, styled(text, base));
    assert(text.take(0) =~= Seq::empty());
    lemma_boundary_unique(text, 0, 0);
    if searches_content(search) {
        assert(base.bg != hit_style().bg);
        lemma_marked(text, lowercase(text), lowercase(search.query), byte_len(search.query), base, 0);
        assert(text.skip(0) =~= text);
    }
}

proof fn lemma_tokens_show(tokens: Seq<(Seq<char>, Color)>, search: SearchModel)
    requires
        spans_of(tokens, search) is Some,
    ensures
        line_text(spans_of(tokens, search).unwrap()) == concatenated(token_texts(tokens)),
    decreases tokens.len(),
{
    if tokens.len() > 0 {
        let init = tokens.drop_last();
        lemma_tokens_show(init, search);
        let (before, last) = (spans_of(init, search).unwrap(), token_spans(tokens.last(), search).unwrap());
        searched_token_is_marked(tokens.last().0, tokens.last().1, search);
        line_text_adds_up(before, last, styled(Seq::empty(), plain()));
        assert(token_texts(tokens).drop_last() =~= token_texts(init));
        assert(token_texts(tokens).last() == tokens.last().0);
    } else {
        assert(token_texts(tokens) =~= Seq::empty());
    }
}

/// The row of a line shows its sign and its text, and before them, if they are wanted,
/// its numbers in the old and in the new file.
pub proof fn row_shows_its_line(
    line: LineModel,
    tokens: Seq<(Seq<char>, Color)>,
    search: SearchModel,
    show_line_numbers: bool,
)
    requires
        line_row(line, tokens, search, show_line_numbers) is Some,
    ensures
        ({
            let text = line_text(line_row(line, tokens, search, show_line_numbers).unwrap());
            let sign = seq![
                match line.kind {
                    DiffLineType::Add => '+',
                    DiffLineType::Remove => '-',
                    DiffLineType::Context => ' ',
                },
            ];
            let body = sign + concatenated(token_texts(tokens));
            &&& !show_line_numbers ==> text == body
            &&& show_line_numbers ==> text == old_number(line.old_line) + " "@ + new_number(line.new_line) + " "@ + body
        }),
{
    reveal_strlit("+");
    reveal_strlit("-");
    reveal_strlit(" ");
    let spans = spans_of(tokens, search).unwrap();
    lemma_tokens_show(tokens, search);
    let head = line_head(line, show_line_numbers);
    let mark = line_mark(line.kind);
    line_text_adds_up(head, spans, mark);
    let row = line_row(line, tokens, search, show_line_numbers).unwrap();
    if show_line_numbers {
        line_text_adds_up(seq![head[0]], seq![mark], head[0]);
        assert(head =~= seq![head[0]] + seq![mark]);
    } else {
        assert(head =~= seq![mark]);
    }
    let sign = seq![
        match line.kind {
            DiffLineType::Add => '+',
            DiffLineType::Remove => '-',
            DiffLineType::Context => ' ',
        },
    ];
    assert(mark.content =~= sign);
    let body = sign + concatenated(token_texts(tokens));
    if show_line_numbers {
        assert(line_text(row) =~= old_number(line.old_line) + " "@ + new_number(line.new_line) + " "@ + body);
    } else {
        assert(line_text(row) =~= body);
    }
}

/// The row at which a hunk starts, below the heading.
pub open spec fn hunk_row(hunks: Seq<HunkModel>, h: int) -> int
    decreases h,
{
    if h <= 0 { 2 } else { hunk_row(hunks, h - 1) + 1 + hunks[h - 1].lines.len() }
}

proof fn lemma_line_rows(
    lines: Seq<LineModel>,
    k: int,
    path: Seq<char>,
    theme: Seq<char>,
    search: SearchModel,
    show_line_numbers: bool,
)
    requires
        0 <= k,
        line_rows(lines, k, path, theme, search, show_line_numbers) is Some,
    ensures
        ({
            let rows = line_rows(lines, k, path, theme, search, show_line_numbers).unwrap();
            &&& rows.len() == k
            &&& forall|j: int|
                0 <= j < k ==> Some(#[trigger] rows[j]) == diff_row(lines[j], path, theme, search, show_line_numbers)
        }),
    decreases k,
{
    if k > 0 {
        lemma_line_rows(lines, k - 1, path, theme, search, show_line_numbers);
    }
}

proof fn lemma_hunk_rows(
    hunks: Seq<HunkModel>,
    n: int,
    path: Seq<char>,
    theme: Seq<char>,
    search: SearchModel,
    show_line_numbers: bool,
)
    requires
        0 <= n,
        hunk_rows(hunks, n, path, theme, search, show_line_numbers) is Some,
    ensures
        ({
            let rows = hunk_rows(hunks, n, path, theme, search, show_line_numbers).unwrap();
            &&& rows.len() == hunk_row(hunks, n) - 2
            &&& forall|h: int|
                0 <= h < n ==> 2 <= #[trigger] hunk_row(hunks, h) && hunk_row(hunks, h) + hunks[h].lines.len() - 2
                    < rows.len() && rows[hunk_row(hunks, h) - 2].len() == 1 && rows[hunk_row(hunks, h) - 2][0].content
                    == hunks[h].header
            &&& forall|h: int, k: int|
                #![trigger hunks[h].lines[k]]
                0 <= h < n && 0 <= k < hunks[h].lines.len() ==> Some(rows[hunk_row(hunks, h) - 1 + k]) == diff_row(
                    hunks[h].lines[k],
                    path,
                    theme,
                    search,
                    show_line_numbers,
                )
        }),
    decreases n,
{
    if n > 0 {
        let lines = hunks[n - 1].lines;
        lemma_hunk_rows(hunks, n - 1, path, theme, search, show_line_numbers);
        lemma_line_rows(lines, lines.len() as int, path, theme, search, show_line_numbers);
        let before = hunk_rows(hunks, n - 1, path, theme, search, show_line_numbers).unwrap();
        let last = line_rows(lines, lines.len() as int, path, theme, search, show_line_numbers).unwrap();
        let rows = hunk_rows(hunks, n, path, theme, search, show_line_numbers).unwrap();
        assert(rows.len() == before.len() + 1 + last.len());
        assert forall|h: int, k: int|
            #![trigger hunks[h].lines[k]]
            0 <= h < n && 0 <= k < hunks[h].lines.len() implies Some(rows[hunk_row(hunks, h) - 1 + k]) == diff_row(
            hunks[h].lines[k],
            path,
            theme,
            search,
            show_line_numbers,
        ) by {
            if h < n - 1 {
                let r = hunk_row(hunks, h) - 1 + k;
                assert(0 <= r < before.len());
                assert(rows[r] == before[r]);
            } else {
                assert(rows[before.len() + 1 + k] == last[k]);
            }
        }
        assert forall|h: int| 0 <= h < n implies 2 <= #[trigger] hunk_row(hunks, h) && hunk_row(hunks, h)
            + hunks[h].lines.len() - 2 < rows.len() && rows[hunk_row(hunks, h) - 2].len() == 1 && rows[hunk_row(
            hunks,
            h,
        ) - 2][0].content == hunks[h].header by {
            if h < n - 1 {
                assert(rows[hunk_row(hunks, h) - 2] == before[hunk_row(hunks, h) - 2]);
            }
        }
    }
}

/// A diff is drawn row by row: below the heading the hunks in order, each with its header
/// and then its lines in order, and nothing else.
pub proof fn diff_is_drawn_in_order(
    file: FileModel,
    theme: Seq<char>,
    search: SearchModel,
    show_line_numbers: bool,
    h: int,
    k: int,
)
    requires
        diff_rows(file, theme, search, show_line_numbers) is Some,
        0 <= h < file.hunks.len(),
        0 <= k < file.hunks[h].lines.len(),
    ensures
        ({
            let rows = diff_rows(file, theme, search, show_line_numbers).unwrap();
            let r = hunk_row(file.hunks, h);
            &&& rows.len() == hunk_row(file.hunks, file.hunks.len() as int)
            &&& rows[r][0].content == file.hunks[h].header
            &&& Some(rows[r + 1 + k]) == diff_row(
                file.hunks[h].lines[k],
                file.path,
                theme,
                search,
                show_line_numbers,
            )
        }),
{
    let n = file.hunks.len() as int;
    lemma_hunk_rows(file.hunks, n, file.path, theme, search, show_line_numbers);
    let rows = hunk_rows(file.hunks, n, file.path, theme, search, show_line_numbers).unwrap();
    let r = hunk_row(file.hunks, h);
    assert(2 <= hunk_row(file.hunks, h));
    assert(file.hunks[h].lines[k] == file.hunks[h].lines[k]);
    let all = diff_rows(file, theme, search, show_line_numbers).unwrap();
    assert(diff_head(file).len() == 2);
    assert(all[r] == rows[r - 2]);
    assert(all[r + 1 + k] == rows[r - 1 + k]);
}

/// Whether making a text lowercase leaves every character as wide as it was.
pub open spec fn keeps_widths(text: Seq<char>, lower: Seq<char>) -> bool {
    &&& lower.len() == text.len()
    &&& forall|i: int| 0 <= i <= text.len() ==> byte_len(#[trigger] lower.take(i)) == byte_len(text.take(i))
}

proof fn lemma_markable(
    text: Seq<char>,
    lower: Seq<char>,
    needle: Seq<char>,
    size: nat,
    base: Style,
    pos: int,
)
    requires
        keeps_widths(text, lower),
        byte_len(needle) == size,
        size > 0,
        is_boundary(lower, pos),
    ensures
        marked_from(text, lower, needle, size, base, pos) is Some,
    decreases byte_len(lower) + size + 1 - pos,
{
    let p = chars_before(lower, pos);
    assert(0 <= p <= lower.len() && byte_len(lower.take(p)) == pos);
    lemma_boundary_unique(text, pos, p);
    lemma_hit_start(lower, needle, pos);
    if let Some(start) = hit_start(lower, needle, pos) {
        lemma_first_occurrence(lower, needle, p);
        let i = first_occurrence(lower, needle, p).unwrap();
        let j = i + needle.len() as int;
        lemma_byte_len_add(lower.take(i), needle);
        assert(lower.take(j) =~= lower.take(i) + needle);
        lemma_boundary_unique(lower, (start + size) as int, j);
        assert(byte_len(lower.take(i)) == byte_len(text.take(i)));
        assert(byte_len(lower.take(j)) == byte_len(text.take(j)));
        lemma_boundary_unique(text, start, i);
        lemma_boundary_unique(text, (start + size) as int, j);
        lemma_markable(text, lower, needle, size, base, (start + size) as int);
    }
}

/// What is searched for can be marked wherever lowercase letters are as wide as the
/// letters they stand for; and where nothing is searched for the diff is drawn.
pub proof fn tokens_can_be_marked(text: Seq<char>, color: Color, search: SearchModel)
    requires
        search.active && search.mode == SearchMode::Content && search.query.len() > 0 ==> keeps_widths(
            text,
            lowercase(text),
        ) && byte_len(lowercase(search.query)) == byte_len(search.query),
    ensures
        token_spans((text, color), search) is Some,
{
    if searches_content(search) {
        let lower = lowercase(text);
        assert(lower.take(0) =~= Seq::empty());
        lemma_boundary_unique(lower, 0, 0);
        lemma_byte_len_grows(search.query, 0, search.query.len() as int);
        assert(search.query.take(search.query.len() as int) =~= search.query);
        lemma_markable(text, lower, lowercase(search.query), byte_len(search.query), in_color(color), 0);
    }
}

proof fn lemma_spans_drawn(tokens: Seq<(Seq<char>, Color)>, search: SearchModel)
    requires
        !searches_content(search),
    ensures
        spans_of(tokens, search) is Some,
    decreases tokens.len(),
{
    if tokens.len() > 0 {
        lemma_spans_drawn(tokens.drop_last(), search);
    }
}

proof fn lemma_lines_drawn(
    lines: Seq<LineModel>,
    k: int,
    path: Seq<char>,
    theme: Seq<char>,
    search: SearchModel,
    show_line_numbers: bool,
)
    requires
        !searches_content(search),
    ensures
        line_rows(lines, k, path, theme, search, show_line_numbers) is Some,
    decreases k,
{
    if k > 0 {
        lemma_lines_drawn(lines, k - 1, path, theme, search, show_line_numbers);
        lemma_spans_drawn(line_tokens(expanded(lines[k - 1].content), path, theme), search);
    }
}

proof fn lemma_hunks_drawn(
    hunks: Seq<HunkModel>,
    k: int,
    path: Seq<char>,
    theme: Seq<char>,
    search: SearchModel,
    show_line_numbers: bool,
)
    requires
        !searches_content(search),
    ensures
        hunk_rows(hunks, k, path, theme, search, show_line_numbers) is Some,
    decreases k,
{
    if k > 0 {
        lemma_hunks_drawn(hunks, k - 1, path, theme, search, show_line_numbers);
        let lines = hunks[k - 1].lines;
        lemma_lines_drawn(lines, lines.len() as int, path, theme, search, show_line_numbers);
    }
}

/// A diff in which nothing is searched for is drawn.
pub proof fn diff_is_drawn(file: FileModel, theme: Seq<char>, search: SearchModel, show_line_numbers: bool)
    requires
        !(search.active && search.mode == SearchMode::Content && search.query.len() > 0),
    ensures
        diff_rows(file, theme, search, show_line_numbers) is Some,
{
    lemma_hunks_drawn(file.hunks, file.hunks.len() as int, file.path, theme, search, show_line_numbers);
}

}

//! How the annotate view is drawn: one row per line of the file, with a gutter,
//! the notes that start there, and the cursor and the selection laid over the
//! text.

use crate::app::{App, AppModel, CursorState};
use crate::notes::{canon_lines, canonical_lines, models, Note, NoteModel};
use crate::number::{
    decimal, decimal_string, is_digit, larger_numbers_are_no_shorter, padded_left, push_repeated,
};
use crate::render::flatten_line;
use crate::screen::{greatest, least, left_of};
use crate::style::{
    cells_of, in_color, line_models, line_text, modified, on_color, plain, styled, Color, ITALIC, Line,
    REVERSED, Span, SpanModel, Style, UNDERLINED,
};
use crate::text::{chars_of, join, joined, push_text, replace, replaced, texts};
use vstd::prelude::*;

verus! {

// ---- Gutter ------------------------------------------------------------------

/// Where the run of spaces that starts at `i` ends.
pub open spec fn after_spaces(cells: Seq<(char, Style)>, i: int) -> int
    decreases cells.len() - i,
{
    if 0 <= i < cells.len() && cells[i].0 == ' ' { after_spaces(cells, i + 1) } else { i }
}

/// Where the run of digits that starts at `i` ends.
pub open spec fn after_digits(cells: Seq<(char, Style)>, i: int) -> int
    decreases cells.len() - i,
{
    if 0 <= i < cells.len() && is_digit(cells[i].0) { after_digits(cells, i + 1) } else { i }
}

/// Where the content starts after the gutter that bat draws: padding, the digits
/// of the line number, and a space.
pub open spec fn content_start(cells: Seq<(char, Style)>) -> int {
    let i = after_digits(cells, after_spaces(cells, 0));
    if i < cells.len() && cells[i].0 == ' ' { i + 1 } else { i }
}

/// Column where content begins after `bat`'s `numbers` gutter — leading pad,
/// the line-number digits, and a single separating space.
pub fn gutter_end(cells: &Vec<(char, Style)>) -> (r: usize)
    ensures
        r == content_start(cells@),
        r <= cells@.len(),
{
    let n = cells.len();
    let mut i: usize = 0;
    while i < n && cells[i].0 == ' '
        invariant
            i <= n == cells@.len(),
            after_spaces(cells@, 0) == after_spaces(cells@, i as int),
        decreases n - i,
    {
        i += 1;
    }
    let ghost first = i;
    while i < n && '0' <= cells[i].0 && cells[i].0 <= '9'
        invariant
            i <= n == cells@.len(),
            after_digits(cells@, first as int) == after_digits(cells@, i as int),
        decreases n - i,
    {
        i += 1;
    }
    if i < n && cells[i].0 == ' ' {
        i += 1;
    }
    i
}

/// The text in a style, character by character.
pub open spec fn cells_in(text: Seq<char>, style: Style) -> Seq<(char, Style)> {
    text.map_values(|c: char| (c, style))
}

/// The style of the gutter.
pub open spec fn gutter_style() -> Style {
    in_color(Color::DarkGray)
}

/// The style of the comments.
pub open spec fn comment_style() -> Style {
    Style { fg: Some(Color::Cyan), add: ITALIC, ..plain() }
}

/// The style of the text that a note covers.
pub open spec fn note_style() -> Style {
    Style { bg: Some(Color::Rgb(58, 58, 74)), add: UNDERLINED, ..plain() }
}

/// The gutter before line `lineno`, whose number is `width` wide.
pub open spec fn gutter(lineno: nat, width: nat) -> Seq<char> {
    " "@ + padded_left(decimal(lineno), width, ' ') + " │ "@
}

/// Appends a text in a style, character by character.
fn push_cells(cells: &mut Vec<(char, Style)>, text: &[char], style: Style)
    ensures
        final(cells)@ == old(cells)@ + cells_in(text@, style),
{
    let ghost before = cells@;
    let mut i: usize = 0;
    assert(cells@ =~= before + cells_in(text@.take(0), style));
    while i < text.len()
        invariant
            i <= text@.len(),
            cells@ == before + cells_in(text@.take(i as int), style),
        decreases text@.len() - i,
    {
        cells.push((text[i], style));
        assert(cells_in(text@.take(i + 1), style) =~= cells_in(text@.take(i as int), style).push(
            (text@[i as int], style),
        ));
        i += 1;
    }
    assert(text@.take(i as int) =~= text@);
}

// ---- Rows --------------------------------------------------------------------

/// The notes that start on a line.
pub open spec fn starting_on(notes: Seq<NoteModel>, line: usize) -> Seq<NoteModel>
    decreases notes.len(),
{
    if notes.len() == 0 {
        Seq::empty()
    } else if notes.last().start.0 == line {
        starting_on(notes.drop_last(), line).push(notes.last())
    } else {
        starting_on(notes.drop_last(), line)
    }
}

/// A note's comment, on one row.
pub open spec fn comment(note: NoteModel) -> SpanModel {
    styled("  ▸ "@ + replaced(note.text, '\n', " ⏎ "@), comment_style())
}

/// The cells before notes, cursor and selection are laid over them: the
/// highlighted line, or a gutter and the plain line.
pub open spec fn base_cells(
    line: Seq<char>,
    lineno: usize,
    width: nat,
    highlighted: Option<Seq<SpanModel>>,
) -> Seq<(char, Style)> {
    match highlighted {
        Some(spans) => cells_of(spans),
        None => cells_in(gutter(lineno as nat, width), gutter_style()) + cells_in(line, plain()),
    }
}

/// Where the text of the line starts among its cells.
pub open spec fn base_start(lineno: usize, width: nat, highlighted: Option<Seq<SpanModel>>) -> int {
    match highlighted {
        Some(spans) => content_start(cells_of(spans)),
        None => gutter(lineno as nat, width).len() as int,
    }
}

/// The cells with a marker in the first of them.
pub open spec fn marked(cells: Seq<(char, Style)>) -> Seq<(char, Style)> {
    if cells.len() > 0 { cells.update(0, ('●', in_color(Color::Cyan))) } else { cells }
}

/// The cells as pieces of text of one character each.
pub open spec fn cell_spans(cells: Seq<(char, Style)>) -> Seq<SpanModel> {
    cells.map_values(|c: (char, Style)| styled(seq![c.0], c.1))
}

/// The comments of notes.
pub open spec fn comments(notes: Seq<NoteModel>) -> Seq<SpanModel> {
    notes.map_values(|n: NoteModel| comment(n))
}

/// Whether a note covers `(line, col)`.
pub open spec fn is_noted(notes: Seq<NoteModel>, line: usize, col: usize) -> bool {
    exists|i: int| 0 <= i < notes.len() && (#[trigger] notes[i]).covers(line, col)
}

impl AppModel {
    /// What is laid over the cell of `(line, col)`: the cursor, else the selection,
    /// else a note.
    pub open spec fn overlay(self, notes: Seq<NoteModel>, line: usize, col: usize) -> Option<Style> {
        if self.has_cursor_at(line, col) {
            Some(modified(REVERSED))
        } else if self.has_selected(line, col) {
            Some(on_color(Color::Blue))
        } else if is_noted(notes, line, col) {
            Some(note_style())
        } else {
            None
        }
    }

    /// The cells with what is laid over those of the text, which starts at `start`
    /// and is `len` long.
    pub open spec fn overlaid(
        self,
        cells: Seq<(char, Style)>,
        start: int,
        len: int,
        line: usize,
        notes: Seq<NoteModel>,
    ) -> Seq<(char, Style)> {
        Seq::new(
            cells.len(),
            |k: int|
                match self.overlay(notes, line, (k - start) as usize) {
                    Some(style) if start <= k < start + len => (cells[k].0, cells[k].1.patched(style)),
                    _ => cells[k],
                },
        )
    }

    /// What stands after the text: a cell for the cursor if it rests there, or for
    /// what is laid over an empty line.
    pub open spec fn tail(self, notes: Seq<NoteModel>, line: usize, len: int) -> Seq<SpanModel> {
        if self.has_cursor_at(line, len as usize) {
            seq![styled(" "@, modified(REVERSED))]
        } else if len == 0 {
            match self.overlay(notes, line, 0) {
                Some(style) => seq![styled(" "@, style)],
                None => Seq::empty(),
            }
        } else {
            Seq::empty()
        }
    }

    /// The row of a line of the file.
    pub open spec fn annotated_row(
        self,
        line: Seq<char>,
        lineno: usize,
        width: nat,
        highlighted: Option<Seq<SpanModel>>,
        notes: Seq<NoteModel>,
    ) -> Seq<SpanModel> {
        let here = starting_on(notes, lineno);
        let base = base_cells(line, lineno, width, highlighted);
        let cells = if here.len() > 0 { marked(base) } else { base };
        let start = base_start(lineno, width, highlighted);
        cell_spans(self.overlaid(cells, start, line.len() as int, lineno, notes)) + self.tail(
            notes,
            lineno,
            line.len() as int,
        ) + comments(here)
    }
}

/// The notes that start on a line.
fn notes_starting<'a>(notes: &'a [Note], line: usize) -> (r: Vec<&'a Note>)
    ensures
        r@.map_values(|n: &Note| n@) == starting_on(models(notes@), line),
{
    let mut r: Vec<&'a Note> = Vec::new();
    let mut i: usize = 0;
    let ghost all = models(notes@);
    assert(all.take(0) =~= Seq::empty());
    assert(r@.map_values(|n: &Note| n@) =~= Seq::empty());
    while i < notes.len()
        invariant
            i <= notes@.len(),
            all == models(notes@),
            r@.map_values(|n: &Note| n@) == starting_on(all.take(i as int), line),
        decreases notes@.len() - i,
    {
        proof {
            assert(all.take(i + 1).drop_last() =~= all.take(i as int));
            assert(all.take(i + 1).last() == notes@[i as int]@);
        }
        if notes[i].start_line == line {
            let ghost before = r@.map_values(|n: &Note| n@);
            r.push(&notes[i]);
            assert(r@.map_values(|n: &Note| n@) =~= before.push(notes@[i as int]@));
        }
        i += 1;
    }
    assert(all.take(i as int) =~= all);
    r
}

fn any_note_covers(notes: &[Note], line: usize, col: usize) -> (r: bool)
    ensures
        r == is_noted(models(notes@), line, col),
{
    let mut i: usize = 0;
    while i < notes.len()
        invariant
            i <= notes@.len(),
            forall|j: int| 0 <= j < i ==> !(#[trigger] models(notes@)[j]).covers(line, col),
        decreases notes@.len() - i,
    {
        assert(models(notes@)[i as int] == notes@[i as int]@);
        if notes[i].contains(line, col) {
            return true;
        }
        i += 1;
    }
    false
}

/// The base of a row, and where its text starts.
fn base_row(line: &[char], lineno: usize, width: usize, highlighted: Option<&Line>) -> (r: (
    Vec<(char, Style)>,
    usize,
))
    ensures
        r.0@ == base_cells(
            line@,
            lineno,
            width as nat,
            match highlighted {
                Some(l) => Some(l@),
                None => None,
            },
        ),
        r.1 == base_start(
            lineno,
            width as nat,
            match highlighted {
                Some(l) => Some(l@),
                None => None,
            },
        ),
        r.1 <= r.0@.len(),
{
    match highlighted {
        Some(l) => {
            let cells = flatten_line(l);
            let start = gutter_end(&cells);
            (cells, start)
        },
        None => {
            let number = decimal_string(lineno);
            let digits = chars_of(number.as_str()).len();
            let mut text = " ".to_string();
            if digits < width {
                push_repeated(&mut text, ' ', width - digits);
            }
            push_text(&mut text, number.as_str());
            push_text(&mut text, " │ ");
            let chars = chars_of(text.as_str());
            assert(chars@ =~= gutter(lineno as nat, width as nat));
            let mut cells: Vec<(char, Style)> = Vec::new();
            push_cells(&mut cells, chars.as_slice(), Style::fg(Color::DarkGray));
            push_cells(&mut cells, line, Style::plain());
            assert(cells@ =~= cells_in(chars@, gutter_style()) + cells_in(line@, plain()));
            (cells, chars.len())
        },
    }
}

impl App {
    /// Overlay to layer onto a content cell — cursor over selection over note —
    /// or `None` to leave the cell (its syntax color) untouched.
    pub fn overlay_style(&self, line: usize, col: usize, notes: &[Note]) -> (r: Option<Style>)
        ensures
            r == self@.overlay(models(notes@), line, col),
    {
        if self.cursor_at(line, col) {
            Some(Style::modifier(REVERSED))
        } else if self.in_selection(line, col) {
            Some(Style::bg(Color::Blue))
        } else if any_note_covers(notes, line, col) {
            Some(
                Style {
                    fg: None,
                    bg: Some(Color::Rgb(58, 58, 74)),
                    underline: None,
                    add: UNDERLINED,
                    sub: 0,
                },
            )
        } else {
            None
        }
    }

    /// Lays cursor, selection and notes over the cells of a line.
    fn lay_over(&self, cells: &Vec<(char, Style)>, start: usize, len: usize, line: usize, notes: &[Note]) -> (r:
        Vec<(char, Style)>)
        ensures
            r@ == self@.overlaid(cells@, start as int, len as int, line, models(notes@)),
    {
        let mut r: Vec<(char, Style)> = Vec::new();
        let mut k: usize = 0;
        let ghost want = self@.overlaid(cells@, start as int, len as int, line, models(notes@));
        while k < cells.len()
            invariant
                k <= cells@.len(),
                want == self@.overlaid(cells@, start as int, len as int, line, models(notes@)),
                r@ == want.take(k as int),
            decreases cells@.len() - k,
        {
            let (c, style) = cells[k];
            let mut shown = style;
            if k >= start && k - start < len {
                if let Some(over) = self.overlay_style(line, k - start, notes) {
                    shown = style.patch(over);
                }
            }
            r.push((c, shown));
            assert(want[k as int] == (c, shown));
            assert(r@ =~= want.take(k + 1));
            k += 1;
        }
        assert(want.take(k as int) =~= want);
        r
    }

    /// The row of a line of the file, and the column where its text starts.
    pub fn annotate_row(
        &self,
        line: &[char],
        lineno: usize,
        width: usize,
        highlighted: Option<&Line>,
        notes: &[Note],
    ) -> (r: (Line, usize))
        ensures
            r.0@ == self@.annotated_row(
                line@,
                lineno,
                width as nat,
                match highlighted {
                    Some(l) => Some(l@),
                    None => None,
                },
                models(notes@),
            ),
            r.1 == base_start(
                lineno,
                width as nat,
                match highlighted {
                    Some(l) => Some(l@),
                    None => None,
                },
            ),
    {
        let here = notes_starting(notes, lineno);
        let ghost here_models = here@.map_values(|n: &Note| n@);
        assert(here_models.len() == here@.len());
        let (mut cells, start) = base_row(line, lineno, width, highlighted);
        if here.len() > 0 && cells.len() > 0 {
            cells.set(0, ('●', Style::fg(Color::Cyan)));
        }
        let cells = self.lay_over(&cells, start, line.len(), lineno, notes);
        let mut row = Line::empty();
        let mut i: usize = 0;
        assert(row@ =~= cell_spans(cells@.take(0)));
        while i < cells.len()
            invariant
                i <= cells@.len(),
                row@ == cell_spans(cells@.take(i as int)),
            decreases cells@.len() - i,
        {
            let mut text = String::new();
            text.push(cells[i].0);
            assert(text@ =~= seq![cells@[i as int].0]);
            row.push(Span::styled(text, cells[i].1));
            assert(cell_spans(cells@.take(i + 1)) =~= cell_spans(cells@.take(i as int)).push(
                styled(seq![cells@[i as int].0], cells@[i as int].1),
            ));
            i += 1;
        }
        assert(cells@.take(i as int) =~= cells@);
        let ghost text_part = row@;
        if self.cursor_at(lineno, line.len()) {
            row.push(Span::styled(" ".to_string(), Style::modifier(REVERSED)));
        } else if line.len() == 0 {
            if let Some(over) = self.overlay_style(lineno, 0, notes) {
                row.push(Span::styled(" ".to_string(), over));
            }
        }
        let ghost with_tail = row@;
        assert(with_tail =~= text_part + self@.tail(models(notes@), lineno, line@.len() as int));
        let mut k: usize = 0;
        assert(row@ =~= with_tail + comments(here_models.take(0)));
        while k < here.len()
            invariant
                k <= here@.len(),
                here_models == here@.map_values(|n: &Note| n@),
                row@ == with_tail + comments(here_models.take(k as int)),
            decreases here@.len() - k,
        {
            let chars = chars_of(here[k].text.as_str());
            let mut text = "  ▸ ".to_string();
            push_text(&mut text, replace(chars.as_slice(), '\n', " ⏎ ").as_str());
            let style = Style {
                fg: Some(Color::Cyan),
                bg: None,
                underline: None,
                add: ITALIC,
                sub: 0,
            };
            row.push(Span::styled(text, style));
            proof {
                assert(here_models[k as int] == here@[k as int]@);
                assert(comments(here_models.take(k + 1)) =~= comments(here_models.take(k as int)).push(
                    comment(here_models[k as int]),
                ));
            }
            k += 1;
        }
        assert(here_models.take(k as int) =~= here_models);
        (row, start)
    }
}

// ---- The view ----------------------------------------------------------------

/// The lines of a file as one text, to be highlighted; none if it has no lines.
pub fn highlight_input(content: &str) -> (r: Option<String>)
    ensures
        match r {
            Some(t) => canonical_lines(content@).len() > 0 && t@ == joined(
                canonical_lines(content@),
                "\n"@,
            ),
            None => canonical_lines(content@).len() == 0,
        },
{
    let lines = canon_lines(content);
    assert(texts(lines@).len() == lines@.len());
    if lines.len() == 0 {
        None
    } else {
        Some(join(lines.as_slice(), "\n"))
    }
}

impl CursorState {
    /// On a line of the file, at a character or just past the last one.
    pub open spec fn within(self, lines: Seq<Seq<char>>) -> CursorState {
        if lines.len() == 0 {
            CursorState { line: 1, col: 0, ..self }
        } else {
            let line = least(greatest(self.line as int, 1), lines.len() as int);
            CursorState {
                line: line as usize,
                col: least(self.col as int, lines[line - 1].len() as int) as usize,
                ..self
            }
        }
    }
}

/// How wide the number of the last line is.
pub open spec fn gutter_width(lines: Seq<Seq<char>>) -> nat {
    decimal(greatest(lines.len() as int, 1) as nat).len()
}

/// The highlighted form of line `i`, if every line has one.
pub open spec fn highlighted_line(lines: Seq<Seq<char>>, highlighted: Seq<Seq<SpanModel>>, i: int) -> Option<
    Seq<SpanModel>,
> {
    if highlighted.len() >= lines.len() { Some(highlighted[i]) } else { None }
}

impl AppModel {
    /// The rows of the annotate view.
    pub open spec fn annotated_rows(self, notes: Seq<NoteModel>, highlighted: Seq<Seq<SpanModel>>) -> Seq<
        Seq<SpanModel>,
    > {
        let lines = self.annotate_lines;
        if lines.len() == 0 {
            seq![seq![styled("(empty file — nothing to annotate)"@, gutter_style())]]
        } else {
            Seq::new(
                lines.len(),
                |i: int|
                    self.annotated_row(
                        lines[i],
                        (i + 1) as usize,
                        gutter_width(lines),
                        highlighted_line(lines, highlighted, i),
                        notes,
                    ),
            )
        }
    }

    /// The column where the text starts in the rows of the annotate view: in the
    /// last of them.
    pub open spec fn annotated_start(self, highlighted: Seq<Seq<SpanModel>>) -> int {
        let lines = self.annotate_lines;
        if lines.len() == 0 {
            0
        } else {
            base_start(
                lines.len() as usize,
                gutter_width(lines),
                highlighted_line(lines, highlighted, lines.len() - 1),
            )
        }
    }

    /// With the lines of the file that is annotated, and the cursor among them.
    pub open spec fn with_lines(self, lines: Seq<Seq<char>>) -> AppModel {
        AppModel {
            annotate_lines: lines,
            cursor: match self.cursor {
                Some(c) => Some(c.within(lines)),
                None => None,
            },
            ..self
        }
    }

    /// With other rows in the preview, none of which is a hunk.
    pub open spec fn with_rows(self, rows: Seq<Seq<SpanModel>>, start: usize) -> AppModel {
        AppModel { preview: rows, annotate_gutter: start, hunks: Seq::empty(), ..self }
    }

    /// With the annotate view of a file in the preview.
    pub open spec fn annotated(
        self,
        rel: Seq<char>,
        content: Seq<char>,
        highlighted: Seq<Seq<SpanModel>>,
    ) -> AppModel {
        let s = self.with_lines(canonical_lines(content));
        s.with_rows(
            s.annotated_rows(s.notes_of(rel), highlighted),
            s.annotated_start(highlighted) as usize,
        ).following_cursor().clamped()
    }

    /// The position in the file that a cell of the screen shows, in the annotate
    /// view; none outside of the text.
    pub open spec fn cell_at(self, col: u16, row: u16) -> Option<(usize, usize)> {
        let a = self.preview_area;
        let line = self.scroll + (row - (a.y + 1)) + 1;
        if !self.annotate || col < a.x + 1 || col >= a.x + left_of(a.width as int, 1) || row < a.y + 1 || row
            >= a.y + left_of(a.height as int, 1) || line > self.annotate_lines.len() {
            None
        } else {
            Some(
                (
                    line as usize,
                    least(
                        left_of(col - (a.x + 1), self.annotate_gutter as int),
                        self.annotate_lines[line - 1].len() as int,
                    ) as usize,
                ),
            )
        }
    }
}

impl App {
    /// Sets the lines of the file that is annotated, and keeps the cursor among
    /// them.
    fn set_lines(&mut self, lines: Vec<String>)
        requires
            old(self).wf(),
        ensures
            final(self)@ == old(self)@.with_lines(texts(lines@)),
            final(self).wf(),
    {
        let cursor = match &self.cursor {
            Some(c) => Some(cursor_within(c, lines.as_slice())),
            None => None,
        };
        self.cursor = cursor;
        self.annotate_lines = lines;
    }

    /// The rows of the annotate view, and the column where the text starts.
    fn annotate_rows(&self, notes: &[Note], highlighted: &[Line]) -> (r: (Vec<Line>, usize))
        ensures
            line_models(r.0@) == self@.annotated_rows(models(notes@), line_models(highlighted@)),
            r.1 == self@.annotated_start(line_models(highlighted@)),
    {
        let lines = self.annotate_lines.as_slice();
        let total = lines.len();
        let ghost t = texts(lines@);
        let ghost h = line_models(highlighted@);
        let mut rows: Vec<Line> = Vec::new();
        let mut start: usize = 0;
        if total == 0 {
            rows.push(
                Line::of(
                    Span::styled(
                        "(empty file — nothing to annotate)".to_string(),
                        Style::fg(Color::DarkGray),
                    ),
                ),
            );
            assert(line_models(rows@) =~= self@.annotated_rows(models(notes@), h));
            return (rows, 0);
        }
        let width = chars_of(decimal_string(total).as_str()).len();
        let mut i: usize = 0;
        while i < total
            invariant
                lines@ == self.annotate_lines@,
                total == lines@.len(),
                t == texts(lines@),
                h == line_models(highlighted@),
                width == gutter_width(t),
                i <= total,
                rows@.len() == i,
                i > 0 ==> start == base_start(i, gutter_width(t), highlighted_line(t, h, i - 1)),
                forall|j: int|
                    0 <= j < i ==> (#[trigger] rows@[j])@ == self@.annotated_row(
                        t[j],
                        (j + 1) as usize,
                        gutter_width(t),
                        highlighted_line(t, h, j),
                        models(notes@),
                    ),
            decreases total - i,
        {
            let line = chars_of(lines[i].as_str());
            let base = if highlighted.len() >= total {
                Some(&highlighted[i])
            } else {
                None
            };
            let (row, from) = self.annotate_row(line.as_slice(), i + 1, width, base, notes);
            rows.push(row);
            start = from;
            i += 1;
        }
        assert(line_models(rows@) =~= self@.annotated_rows(models(notes@), h));
        (rows, start)
    }

    /// Puts rows into the preview, none of which is a hunk.
    fn set_rows(&mut self, rows: Vec<Line>, start: usize)
        requires
            old(self).wf(),
        ensures
            final(self)@ == old(self)@.with_rows(line_models(rows@), start),
            final(self).wf(),
    {
        self.preview = rows;
        self.annotate_gutter = start;
        self.hunks = Vec::new();
        assert(crate::hunks::mark_models(self.hunks@) =~= Seq::empty());
    }

    /// Renders the note-aware view of `rel`, whose content is given: one preview
    /// line per file line, over the highlighted lines (of which there must be at
    /// least as many as the file has, else the view is plain), with a line-number
    /// gutter, note markers and comments, and the cursor and any live selection
    /// overlaid.
    pub fn render_annotate(&mut self, rel: &str, content: &str, highlighted: &[Line])
        requires
            old(self).wf(),
        ensures
            final(self)@ == old(self)@.annotated(rel@, content@, line_models(highlighted@)),
            final(self).wf(),
    {
        self.set_lines(canon_lines(content));
        let notes = self.notes_copy(rel);
        let (rows, start) = self.annotate_rows(notes.as_slice(), highlighted);
        self.set_rows(rows, start);
        self.ensure_cursor_visible();
        self.clamp_scroll();
    }

    /// Maps a screen cell to a (1-based file line, 0-based file column) in the
    /// annotate view, or `None` if it falls outside the content.
    pub fn annotate_cell_at(&self, col: u16, row: u16) -> (r: Option<(usize, usize)>)
        ensures
            r == self@.cell_at(col, row),
            r matches Some(p) ==> p.0 >= 1,
    {
        if !self.annotate {
            return None;
        }
        let a = self.preview_area;
        let (x, y) = (a.x as u32, a.y as u32);
        let right = x + if a.width > 0 {
            a.width as u32 - 1
        } else {
            0
        };
        let bottom = y + if a.height > 0 {
            a.height as u32 - 1
        } else {
            0
        };
        if (col as u32) < x + 1 || col as u32 >= right || (row as u32) < y + 1 || row as u32 >= bottom {
            return None;
        }
        let line = self.scroll as usize + (row as u32 - (y + 1)) as usize + 1;
        if line > self.annotate_lines.len() {
            assert(texts(self.annotate_lines@).len() == self.annotate_lines@.len());
            return None;
        }
        let from = (col as u32 - (x + 1)) as usize;
        let fcol = if self.annotate_gutter < from {
            from - self.annotate_gutter
        } else {
            0
        };
        let len = chars_of(self.annotate_lines[line - 1].as_str()).len();
        assert(texts(self.annotate_lines@)[line - 1] == self.annotate_lines@[line - 1]@);
        Some(
            (
                line,
                if fcol < len {
                    fcol
                } else {
                    len
                },
            ),
        )
    }
}

/// The cursor on a line of the file, at a character or just past the last one.
fn cursor_within(c: &CursorState, lines: &[String]) -> (r: CursorState)
    requires
        c.wf(),
    ensures
        r == c.within(texts(lines@)),
        r.wf(),
{
    let total = lines.len();
    if total == 0 {
        return CursorState { line: 1, col: 0, anchor: c.anchor, kind: c.kind };
    }
    let line = if c.line <= total {
        c.line
    } else {
        total
    };
    let len = chars_of(lines[line - 1].as_str()).len();
    assert(texts(lines@)[line - 1] == lines@[line - 1]@);
    let col = if c.col <= len {
        c.col
    } else {
        len
    };
    CursorState { line, col, anchor: c.anchor, kind: c.kind }
}

// ---- What the view promises --------------------------------------------------

/// The notes that start on a line, in their order.
pub proof fn comments_follow_the_notes(notes: Seq<NoteModel>, line: usize)
    ensures
        starting_on(notes, line) == notes.filter(|n: NoteModel| n.start.0 == line),
    decreases notes.len(),
{
    reveal(Seq::filter);
    if notes.len() > 0 {
        comments_follow_the_notes(notes.drop_last(), line);
    }
}

/// What is laid over a line changes no character of it, and nothing but its text. The
/// cursor counts before the selection, and the selection before the notes.
pub proof fn overlay_keeps_the_text(
    m: AppModel,
    cells: Seq<(char, Style)>,
    start: int,
    len: int,
    line: usize,
    notes: Seq<NoteModel>,
    k: int,
)
    requires
        0 <= k < cells.len(),
        0 <= start,
        k - start <= usize::MAX,
    ensures
        ({
            let after = m.overlaid(cells, start, len, line, notes);
            let col = (k - start) as usize;
            let at = m.cursor matches Some(c) && c.line == line && c.col == col;
            &&& after.len() == cells.len()
            &&& after[k].0 == cells[k].0
            &&& k < start || k >= start + len ==> after[k] == cells[k]
            &&& start <= k < start + len && at ==> after[k].1 == cells[k].1.patched(modified(REVERSED))
            &&& start <= k < start + len && !at && m.has_selected(line, col) ==> after[k].1 == cells[k].1.patched(
                on_color(Color::Blue),
            )
            &&& start <= k < start + len && !at && !m.has_selected(line, col) && (exists|i: int|
                0 <= i < notes.len() && (#[trigger] notes[i]).covers(line, col)) ==> after[k].1 == cells[k].1.patched(
                note_style(),
            )
            &&& start <= k < start + len && !at && !m.has_selected(line, col) && (forall|i: int|
                0 <= i < notes.len() ==> !(#[trigger] notes[i]).covers(line, col)) ==> after[k] == cells[k]
        }),
{
}

proof fn lemma_spaces(cells: Seq<(char, Style)>, i: int, n: int)
    requires
        0 <= i <= n <= cells.len(),
        forall|k: int| i <= k < n ==> (#[trigger] cells[k]).0 == ' ',
        n < cells.len() ==> cells[n].0 != ' ',
    ensures
        after_spaces(cells, i) == n,
    decreases n - i,
{
    if i < n {
        assert(cells[i].0 == ' ');
        lemma_spaces(cells, i + 1, n);
    }
}

proof fn lemma_digits(cells: Seq<(char, Style)>, i: int, n: int)
    requires
        0 <= i <= n <= cells.len(),
        forall|k: int| i <= k < n ==> is_digit((#[trigger] cells[k]).0),
        n < cells.len() ==> !is_digit(cells[n].0),
    ensures
        after_digits(cells, i) == n,
    decreases n - i,
{
    if i < n {
        assert(is_digit(cells[i].0));
        lemma_digits(cells, i + 1, n);
    }
}

/// The text of a highlighted line starts behind its gutter: padding, the digits of its
/// number and one space.
pub proof fn text_starts_behind_the_gutter(cells: Seq<(char, Style)>, pad: int, digits: int)
    requires
        0 <= pad,
        0 < digits,
        pad + digits < cells.len(),
        forall|k: int| 0 <= k < pad ==> (#[trigger] cells[k]).0 == ' ',
        forall|k: int| pad <= k < pad + digits ==> '0' <= (#[trigger] cells[k]).0 <= '9',
        cells[pad + digits].0 == ' ',
    ensures
        content_start(cells) == pad + digits + 1,
{
    assert('0' <= cells[pad].0 <= '9');
    lemma_spaces(cells, 0, pad);
    assert forall|k: int| pad <= k < pad + digits implies is_digit((#[trigger] cells[k]).0) by {}
    lemma_digits(cells, pad, pad + digits);
}

/// The gutter shows the number of the line, to the right of a column as wide as the
/// widest number, and is as wide on every line.
pub proof fn gutter_shows_the_number(lineno: nat, width: nat)
    requires
        decimal(lineno).len() <= width,
    ensures
        ({
            let g = gutter(lineno, width);
            let n = decimal(lineno).len();
            &&& g.len() == width + 4
            &&& g.subrange(1 + width - n, 1 + width as int) == decimal(lineno)
            &&& forall|i: int| 0 <= i < 1 + width - n ==> #[trigger] g[i] == ' '
        }),
{
    reveal_strlit(" ");
    reveal_strlit(" │ ");
    let g = gutter(lineno, width);
    let n = decimal(lineno).len();
    assert(g.subrange(1 + width - n, 1 + width as int) =~= decimal(lineno));
}

/// A comment shows its note on one row, behind a mark: newlines become signs.
pub proof fn comment_shows_the_note(note: NoteModel)
    requires
        forall|i: int| 0 <= i < note.text.len() ==> #[trigger] note.text[i] != '\n',
    ensures
        comment(note).content == "  ▸ "@ + note.text,
{
    lemma_unreplaced(note.text, '\n', " ⏎ "@);
}

proof fn lemma_unreplaced(s: Seq<char>, c: char, by: Seq<char>)
    requires
        forall|i: int| 0 <= i < s.len() ==> #[trigger] s[i] != c,
    ensures
        replaced(s, c, by) == s,
    decreases s.len(),
{
    if s.len() > 0 {
        let init = s.drop_last();
        assert forall|i: int| 0 <= i < init.len() implies #[trigger] init[i] != c by {
            assert(init[i] == s[i]);
        }
        lemma_unreplaced(init, c, by);
        assert(s[s.len() - 1] != c);
        assert(replaced(s, c, by) =~= s);
    } else {
        assert(replaced(s, c, by) =~= s);
    }
}

/// The view of a file shows its lines with the cursor on one of them; a cursor that
/// the file no longer has comes to its last line, and to the end of a shorter line.
pub proof fn cursor_comes_into_the_file(c: CursorState, lines: Seq<Seq<char>>)
    requires
        c.line >= 1,
        lines.len() <= usize::MAX,
        forall|i: int| 0 <= i < lines.len() ==> (#[trigger] lines[i]).len() <= usize::MAX,
    ensures
        ({
            let d = c.within(lines);
            &&& d.anchor == c.anchor && d.kind == c.kind
            &&& lines.len() > 0 && c.line <= lines.len() ==> d.line == c.line
            &&& lines.len() > 0 && c.line > lines.len() ==> d.line == lines.len()
            &&& lines.len() > 0 && c.col <= lines[d.line - 1].len() ==> d.col == c.col
            &&& lines.len() > 0 && c.col > lines[d.line - 1].len() ==> d.col == lines[d.line - 1].len()
            &&& lines.len() == 0 ==> d.line == 1 && d.col == 0
        }),
{
    if lines.len() > 0 {
        let d = c.within(lines);
        assert(lines[d.line - 1].len() <= usize::MAX);
    }
}

/// A row shows the gutter and its line, as they are, and behind them the comments of the
/// notes that start there.
pub proof fn row_shows_the_line(
    m: AppModel,
    line: Seq<char>,
    lineno: usize,
    width: nat,
    notes: Seq<NoteModel>,
)
    requires
        notes.filter(|n: NoteModel| n.start.0 == lineno).len() == 0,
        line.len() > 0,
        !(m.cursor matches Some(c) && c.line == lineno && c.col == line.len() as usize),
    ensures
        line_text(m.annotated_row(line, lineno, width, None, notes)) == gutter(lineno as nat, width) + line,
{
    comments_follow_the_notes(notes, lineno);
    let here = starting_on(notes, lineno);
    let base = base_cells(line, lineno, width, None);
    let start = base_start(lineno, width, None);
    let cells = m.overlaid(base, start, line.len() as int, lineno, notes);
    let row = m.annotated_row(line, lineno, width, None, notes);
    assert(comments(here) =~= Seq::empty());
    assert(m.tail(notes, lineno, line.len() as int) =~= Seq::empty());
    assert(row =~= cell_spans(cells));
    lemma_cells_text(cells);
    assert(cells.map_values(|c: (char, Style)| c.0) =~= gutter(lineno as nat, width) + line);
}

proof fn lemma_cells_text(cells: Seq<(char, Style)>)
    ensures
        line_text(cell_spans(cells)) == cells.map_values(|c: (char, Style)| c.0),
    decreases cells.len(),
{
    if cells.len() > 0 {
        lemma_cells_text(cells.drop_last());
        assert(cell_spans(cells).drop_last() =~= cell_spans(cells.drop_last()));
    }
    assert(line_text(cell_spans(cells)) =~= cells.map_values(|c: (char, Style)| c.0));
}

/// A line on which notes start has a mark before it and their comments behind it, in
/// order.
pub proof fn notes_are_shown_on_their_line(
    m: AppModel,
    line: Seq<char>,
    lineno: usize,
    width: nat,
    highlighted: Option<Seq<SpanModel>>,
    notes: Seq<NoteModel>,
    i: int,
)
    requires
        ({
            let here = notes.filter(|n: NoteModel| n.start.0 == lineno);
            0 <= i < here.len()
        }),
        base_cells(line, lineno, width, highlighted).len() > 0,
    ensures
        ({
            let here = notes.filter(|n: NoteModel| n.start.0 == lineno);
            let row = m.annotated_row(line, lineno, width, highlighted, notes);
            &&& row.len() >= here.len()
            &&& row[row.len() - here.len() + i] == comment(here[i])
            &&& row[0].content == seq!['●']
        }),
{
    comments_follow_the_notes(notes, lineno);
}

/// The text of every line starts in the same column, behind a gutter that has room for
/// the number of each line, in a view that is not highlighted.
pub proof fn text_starts_in_one_column(m: AppModel, highlighted: Seq<Seq<SpanModel>>, lineno: usize)
    requires
        1 <= lineno <= m.annotate_lines.len() <= usize::MAX,
        highlighted.len() < m.annotate_lines.len(),
    ensures
        ({
            let width = gutter_width(m.annotate_lines);
            &&& decimal(lineno as nat).len() <= width
            &&& base_start(lineno, width, None) == m.annotated_start(highlighted)
            &&& m.annotated_start(highlighted) == width + 4
        }),
{
    let lines = m.annotate_lines;
    let width = gutter_width(lines);
    larger_numbers_are_no_shorter(lineno as nat, lines.len());
    gutter_shows_the_number(lineno as nat, width);
    gutter_shows_the_number(lines.len(), width);
}

}

//! The annotate view: its cursor and selection, and the notes taken there.

use crate::app::{App, AppModel, CursorState, Focus, Subject, SubjectModel};
use crate::events::{effect_model, Effect, EffectModel, Key, Moment};
use crate::input::{InputModel, InputState};
use crate::motion::{
    first_nonblank, indent, line_at, motions_count_from_one, nchars, next_word, para_back, para_fwd,
    paragraph_end, paragraph_start, previous_word, section_above, section_back, section_below, section_fwd,
    word_backward, word_end, word_forward, word_last,
};
use crate::notebook::{copy_notes, save, saved};
use crate::notes::{
    clamp_to_character, covered_text, covers, in_order, is_covered, models, on_character, ordered, precedes,
    selected_text, selection_text, Note, NoteModel, Position, SelKind,
};
use crate::number::{decimal, push_decimal};
use crate::screen::{greatest, least, left_of, truncate_u16, truncated};
use crate::text::{
    chars_of, find_from, first_occurrence, lemma_first_occurrence, lowercase, lowered, push_text, shorten,
    shortened, string_of, text_in, texts, trim, trimmed,
};
use vstd::prelude::*;

verus! {

// ---- Entering and leaving ----------------------------------------------------

impl AppModel {
    /// With the cursor's line on the screen.
    pub open spec fn following_cursor(self) -> AppModel {
        match self.cursor {
            Some(c) => {
                let row = truncated(c.line - 1);
                let height = greatest(self.preview_height as int, 1);
                if row < self.scroll {
                    AppModel { scroll: row as u16, ..self }
                } else if row >= self.scroll + height {
                    AppModel { scroll: (row - height + 1) as u16, ..self }
                } else {
                    self
                }
            },
            None => self,
        }
    }

    /// In the annotate view, with the cursor at the top and a selection started
    /// there, if one is asked for.
    pub open spec fn annotating(self, sel: Option<SelKind>) -> AppModel {
        AppModel {
            focus: Focus::Right,
            annotate: true,
            scroll: 0,
            cursor: Some(
                CursorState {
                    line: 1,
                    col: 0,
                    anchor: if sel is Some { Some((1, 0)) } else { None },
                    kind: match sel {
                        Some(k) => k,
                        None => SelKind::Char,
                    },
                },
            ),
            message: "annotate · v/V select · c comment · d delete · n/Esc exit"@,
            needs_render: true,
            ..self
        }
    }

    /// Out of the annotate view.
    pub open spec fn not_annotating(self) -> AppModel {
        AppModel { annotate: false, cursor: None, scroll: 0, needs_render: true, ..self }
    }

    /// With the cursor as given.
    pub open spec fn with_cursor(self, c: CursorState) -> AppModel {
        AppModel { cursor: Some(c), ..self }
    }

    /// Without a selection.
    pub open spec fn unselected(self) -> AppModel {
        match self.cursor {
            Some(c) => self.with_cursor(CursorState { anchor: None, ..c }),
            None => self,
        }
    }

    /// To be drawn anew.
    pub open spec fn stale(self) -> AppModel {
        AppModel { needs_render: true, ..self }
    }

    /// The text of the selection, if there is one.
    pub open spec fn selection(self) -> Option<Seq<char>> {
        match self.cursor {
            Some(c) => match c.anchor {
                Some(a) => selected_text(c.kind, a, c.position(), self.annotate_lines),
                None => None,
            },
            None => None,
        }
    }

    /// What puts the text of the selection on the clipboard.
    pub open spec fn copying(self) -> Option<EffectModel> {
        match self.selection() {
            Some(t) => Some(EffectModel::Copy(t)),
            None => None,
        }
    }

    /// Whether `(line, col)` is where the cursor is.
    pub open spec fn has_cursor_at(self, line: usize, col: usize) -> bool {
        self.cursor matches Some(c) && c.line == line && c.col == col
    }

    /// Whether `(line, col)` is inside the selection.
    pub open spec fn has_selected(self, line: usize, col: usize) -> bool {
        match self.cursor {
            Some(c) => match c.anchor {
                Some(a) => {
                    let (s, e) = in_order(a, c.position());
                    covers(c.kind, s, e, line, col)
                },
                None => false,
            },
            None => false,
        }
    }
}

impl App {
    /// Scrolls so the cursor's line is visible in the annotate view.
    pub fn ensure_cursor_visible(&mut self)
        requires
            old(self).wf(),
        ensures
            final(self)@ == old(self)@.following_cursor(),
            final(self).wf(),
    {
        let row = match &self.cursor {
            Some(c) => truncate_u16(c.line - 1),
            None => {
                return;
            },
        };
        let height = if self.preview_height >= 1 {
            self.preview_height
        } else {
            1
        };
        if row < self.scroll {
            self.scroll = row;
        } else if row as u32 >= self.scroll as u32 + height as u32 {
            self.scroll = row - height + 1;
        }
    }

    /// Switches the right pane to the annotate view, placing the cursor at the top
    /// and optionally starting a `v`/`V` selection there.
    pub fn enter_annotate(&mut self, sel: Option<SelKind>)
        requires
            old(self).wf(),
        ensures
            final(self)@ == old(self)@.annotating(sel),
            final(self).wf(),
    {
        let (anchor, kind) = match sel {
            Some(k) => (Some((1usize, 0usize)), k),
            None => (None, SelKind::Char),
        };
        self.focus = Focus::Right;
        self.annotate = true;
        self.scroll = 0;
        self.cursor = Some(CursorState { line: 1, col: 0, anchor, kind });
        self.message = "annotate · v/V select · c comment · d delete · n/Esc exit".to_string();
        self.needs_render = true;
    }

    /// Leaves the annotate view, back to the diff/content preview.
    pub fn exit_annotate(&mut self)
        requires
            old(self).wf(),
        ensures
            final(self)@ == old(self)@.not_annotating(),
            final(self).wf(),
    {
        self.annotate = false;
        self.cursor = None;
        self.scroll = 0;
        self.needs_render = true;
    }

    /// The text of the live selection, to be mirrored to the clipboard.
    pub fn copy_selection(&self) -> (r: Option<String>)
        ensures
            text_in(r) == self@.selection(),
    {
        match &self.cursor {
            Some(c) => match c.anchor {
                Some(a) => selection_text(c.kind, a, (c.line, c.col), self.annotate_lines.as_slice()),
                None => None,
            },
            None => None,
        }
    }

    pub fn cursor_at(&self, line: usize, col: usize) -> (r: bool)
        ensures
            r == self@.has_cursor_at(line, col),
    {
        match &self.cursor {
            Some(c) => c.line == line && c.col == col,
            None => false,
        }
    }

    /// Whether `(line, col)` is inside the live `v`/`V` selection.
    pub fn in_selection(&self, line: usize, col: usize) -> (r: bool)
        ensures
            r == self@.has_selected(line, col),
    {
        match &self.cursor {
            Some(c) => match c.anchor {
                Some(a) => {
                    let (s, e) = ordered(a, (c.line, c.col));
                    is_covered(c.kind, s, e, line, col)
                },
                None => false,
            },
            None => false,
        }
    }
}

// ---- Cursor motions ----------------------------------------------------------

/// What a key means to the cursor.
#[derive(Clone, Copy, Debug, PartialEq, Eq, Structural)]
pub enum CursorCommand {
    /// The cursor moves, or the selection changes.
    Move,
    /// Comment on the selection.
    Comment,
    /// Delete the note under the cursor.
    Delete,
    /// Copy the selection.
    Yank,
    /// Search in the file.
    Find,
    /// Leave the annotate view.
    Exit,
    /// Nothing.
    Pass,
}

impl CursorState {
    /// At another position.
    pub open spec fn to(self, p: Position) -> CursorState {
        CursorState { line: p.0, col: p.1, ..self }
    }

    /// At the start of another line.
    pub open spec fn to_line(self, line: int) -> CursorState {
        self.to((line as usize, 0))
    }

    /// With a selection of `kind` started here, or ended if there is one.
    pub open spec fn toggled(self, kind: SelKind) -> CursorState {
        CursorState {
            anchor: if self.anchor is Some && self.kind == kind { None } else { Some(self.position()) },
            kind,
            ..self
        }
    }

    /// With the column on the line, or just past its end.
    pub open spec fn on_line(self, lines: Seq<Seq<char>>) -> CursorState {
        CursorState {
            col: least(self.col as int, line_at(lines, self.line as int).len() as int) as usize,
            ..self
        }
    }
}

/// How many lines the cursor can be on: one if the file is empty.
pub open spec fn line_count(lines: Seq<Seq<char>>) -> int {
    greatest(lines.len() as int, 1)
}

/// What a key means to the cursor, and where the cursor is after it, before its
/// column is brought back to the line.
pub open spec fn cursor_step(c: CursorState, key: Key, lines: Seq<Seq<char>>) -> (CursorState, CursorCommand) {
    let line = c.line as int;
    if key == Key::Char('h') || key == Key::Left {
        (CursorState { col: left_of(c.col as int, 1) as usize, ..c }, CursorCommand::Move)
    } else if key == Key::Char('l') || key == Key::Right {
        (CursorState { col: least(c.col + 1, usize::MAX as int) as usize, ..c }, CursorCommand::Move)
    } else if key == Key::Char('j') || key == Key::Down {
        (CursorState { line: least(line + 1, line_count(lines)) as usize, ..c }, CursorCommand::Move)
    } else if key == Key::Char('k') || key == Key::Up {
        (CursorState { line: greatest(line - 1, 1) as usize, ..c }, CursorCommand::Move)
    } else if key == Key::Char('0') {
        (CursorState { col: 0, ..c }, CursorCommand::Move)
    } else if key == Key::Char('$') {
        (CursorState { col: line_at(lines, line).len() as usize, ..c }, CursorCommand::Move)
    } else if key == Key::Char('^') {
        (CursorState { col: indent(line_at(lines, line)) as usize, ..c }, CursorCommand::Move)
    } else if key == Key::Char('w') {
        (c.to(next_word(lines, c.position())), CursorCommand::Move)
    } else if key == Key::Char('b') {
        (c.to(previous_word(lines, c.position())), CursorCommand::Move)
    } else if key == Key::Char('e') {
        (c.to(word_last(lines, c.position())), CursorCommand::Move)
    } else if key == Key::Char('g') {
        (c.to_line(1), CursorCommand::Move)
    } else if key == Key::Char('G') {
        (c.to_line(line_count(lines)), CursorCommand::Move)
    } else if key == Key::Char('{') {
        (c.to_line(paragraph_start(lines, line)), CursorCommand::Move)
    } else if key == Key::Char('}') {
        (c.to_line(paragraph_end(lines, line)), CursorCommand::Move)
    } else if key == Key::Char('[') {
        (c.to_line(section_above(lines, line - 1)), CursorCommand::Move)
    } else if key == Key::Char(']') {
        (c.to_line(section_below(lines, line + 1)), CursorCommand::Move)
    } else if key == Key::Char('v') {
        (c.toggled(SelKind::Char), CursorCommand::Move)
    } else if key == Key::Char('V') {
        (c.toggled(SelKind::Line), CursorCommand::Move)
    } else if key == Key::Char('c') {
        (c, CursorCommand::Comment)
    } else if key == Key::Char('d') {
        (c, CursorCommand::Delete)
    } else if key == Key::Char('y') {
        (c, CursorCommand::Yank)
    } else if key == Key::Char('/') {
        (c, CursorCommand::Find)
    } else if key == Key::Char('n') {
        (c, CursorCommand::Exit)
    } else if key == Key::Esc {
        if c.anchor is Some {
            (CursorState { anchor: None, ..c }, CursorCommand::Move)
        } else {
            (c, CursorCommand::Exit)
        }
    } else {
        (c, CursorCommand::Pass)
    }
}

/// Where the cursor is after a key that means something to it: on its line, or
/// just past the end.
pub open spec fn cursor_after(c: CursorState, key: Key, lines: Seq<Seq<char>>) -> CursorState {
    let (d, command) = cursor_step(c, key, lines);
    if command == CursorCommand::Pass { c } else { d.on_line(lines) }
}

/// What a key means to the cursor, and where the cursor is after it.
fn step_cursor(c: &CursorState, key: Key, lines: &[String]) -> (r: (CursorState, CursorCommand))
    requires
        c.wf(),
    ensures
        r.0 == cursor_after(*c, key, texts(lines@)),
        r.1 == cursor_step(*c, key, texts(lines@)).1,
        r.0.wf(),
{
    proof {
        motions_count_from_one(texts(lines@), c.position());
    }
    let total = if lines.len() >= 1 {
        lines.len()
    } else {
        1
    };
    let mut d = c.copy();
    let mut command = CursorCommand::Move;
    match key {
        Key::Char('h') | Key::Left => {
            d.col = if c.col > 0 {
                c.col - 1
            } else {
                0
            };
        },
        Key::Char('l') | Key::Right => {
            d.col = if c.col < usize::MAX {
                c.col + 1
            } else {
                usize::MAX
            };
        },
        Key::Char('j') | Key::Down => {
            d.line = if c.line < total {
                c.line + 1
            } else {
                total
            };
        },
        Key::Char('k') | Key::Up => {
            d.line = if c.line > 1 {
                c.line - 1
            } else {
                1
            };
        },
        Key::Char('0') => {
            d.col = 0;
        },
        Key::Char('$') => {
            d.col = nchars(lines, c.line);
        },
        Key::Char('^') => {
            d.col = first_nonblank(lines, c.line);
        },
        Key::Char('w') => {
            let p = word_forward(lines, c.line, c.col);
            d.line = p.0;
            d.col = p.1;
        },
        Key::Char('b') => {
            let p = word_backward(lines, c.line, c.col);
            d.line = p.0;
            d.col = p.1;
        },
        Key::Char('e') => {
            let p = word_end(lines, c.line, c.col);
            d.line = p.0;
            d.col = p.1;
        },
        Key::Char('g') => {
            d.line = 1;
            d.col = 0;
        },
        Key::Char('G') => {
            d.line = total;
            d.col = 0;
        },
        Key::Char('{') => {
            d.line = para_back(lines, c.line);
            d.col = 0;
        },
        Key::Char('}') => {
            d.line = para_fwd(lines, c.line);
            d.col = 0;
        },
        Key::Char('[') => {
            d.line = section_back(lines, c.line);
            d.col = 0;
        },
        Key::Char(']') => {
            d.line = section_fwd(lines, c.line);
            d.col = 0;
        },
        Key::Char('v') => {
            d.anchor = if c.anchor.is_some() && c.kind == SelKind::Char {
                None
            } else {
                Some((c.line, c.col))
            };
            d.kind = SelKind::Char;
        },
        Key::Char('V') => {
            d.anchor = if c.anchor.is_some() && c.kind == SelKind::Line {
                None
            } else {
                Some((c.line, c.col))
            };
            d.kind = SelKind::Line;
        },
        Key::Char('c') => {
            command = CursorCommand::Comment;
        },
        Key::Char('d') => {
            command = CursorCommand::Delete;
        },
        Key::Char('y') => {
            command = CursorCommand::Yank;
        },
        Key::Char('/') => {
            command = CursorCommand::Find;
        },
        Key::Char('n') => {
            command = CursorCommand::Exit;
        },
        Key::Esc => {
            if c.anchor.is_some() {
                d.anchor = None;
            } else {
                command = CursorCommand::Exit;
            }
        },
        _ => {
            return (d, CursorCommand::Pass);
        },
    }
    let len = nchars(lines, d.line);
    if d.col > len {
        d.col = len;
    }
    (d, command)
}

// ---- Notes -------------------------------------------------------------------

/// The first note, from index `from` on, that covers `(line, col)`.
pub open spec fn note_under(notes: Seq<NoteModel>, line: usize, col: usize, from: int) -> Option<int>
    decreases notes.len() - from,
{
    if from >= notes.len() {
        None
    } else if notes[from].covers(line, col) {
        Some(from)
    } else {
        note_under(notes, line, col, from + 1)
    }
}

/// The first note, from index `from` on, with the given id.
pub open spec fn note_with_id(notes: Seq<NoteModel>, id: u64, from: int) -> Option<int>
    decreases notes.len() - from,
{
    if from >= notes.len() {
        None
    } else if notes[from].id == id {
        Some(from)
    } else {
        note_with_id(notes, id, from + 1)
    }
}

/// The notes, with another text for the first that has the given id.
pub open spec fn retold(notes: Seq<NoteModel>, id: u64, text: Seq<char>) -> Seq<NoteModel> {
    match note_with_id(notes, id, 0) {
        Some(i) => notes.update(i, NoteModel { text, ..notes[i] }),
        None => notes,
    }
}

/// What becomes of a note that is to be saved.
pub enum CommitModel {
    /// There is no note, or no file to put it to.
    Nothing,
    /// The note says nothing.
    Empty,
    /// The note covers no text.
    Unanchored,
    /// The notes of the file, one of which was edited, are gone.
    Gone,
    /// These are the notes of the file from now on; one was edited, or is new.
    Stored(Seq<char>, Seq<NoteModel>, bool),
}

impl AppModel {
    /// The notes of a file.
    pub open spec fn notes_of(self, rel: Seq<char>) -> Seq<NoteModel> {
        if self.notes.contains_key(rel) { self.notes[rel] } else { Seq::empty() }
    }

    /// With the notes of a file replaced.
    pub open spec fn filing(self, rel: Seq<char>, notes: Seq<NoteModel>) -> AppModel {
        AppModel { notes: self.notes.insert(rel, notes), ..self }
    }

    /// With the notes of a file replaced; without the file if there are none.
    pub open spec fn refiling(self, rel: Seq<char>, notes: Seq<NoteModel>) -> AppModel {
        if notes.len() == 0 {
            AppModel { notes: self.notes.remove(rel), ..self }
        } else {
            self.filing(rel, notes)
        }
    }

    /// What a new note is taken over: the selection, or the line of the cursor. A
    /// selection of characters starts and ends on characters.
    pub open spec fn note_range(self, c: CursorState) -> (SelKind, Position, Position) {
        match c.anchor {
            Some(a) => if c.kind == SelKind::Char {
                (
                    SelKind::Char,
                    on_character(self.annotate_lines, a),
                    on_character(self.annotate_lines, c.position()),
                )
            } else {
                (c.kind, a, c.position())
            },
            None => (SelKind::Line, (c.line, 0), (c.line, 0)),
        }
    }

    /// The input for the note under the cursor if nothing is selected and there is
    /// one, else for a new note. There is none without a cursor or a file.
    pub open spec fn new_input(self) -> Option<InputModel> {
        match (self.cursor, self.view) {
            (Some(c), SubjectModel::File(rel, _)) => {
                let ns = self.notes_of(rel);
                match note_under(ns, c.line, c.col, 0) {
                    Some(i) if c.anchor is None => Some(
                        InputModel {
                            buffer: ns[i].text,
                            cursor: ns[i].text.len() as int,
                            kind: ns[i].kind,
                            start: ns[i].start,
                            end: ns[i].end,
                            editing: Some(ns[i].id),
                        },
                    ),
                    _ => {
                        let (kind, start, end) = self.note_range(c);
                        Some(
                            InputModel {
                                buffer: Seq::empty(),
                                cursor: 0,
                                kind,
                                start,
                                end,
                                editing: None,
                            },
                        )
                    },
                }
            },
            _ => None,
        }
    }

    /// With the input open, if there is one to open.
    #[verifier::opaque]
    pub open spec fn note_begun(self) -> AppModel {
        match self.new_input() {
            Some(input) => (AppModel { input: Some(input), ..self }).saying(Seq::empty()),
            None => self,
        }
    }

    /// The file in the preview and, if there is a note under the cursor, the notes
    /// that are left without the first such.
    pub open spec fn deletion(self) -> Option<(Seq<char>, Option<Seq<NoteModel>>)> {
        match (self.cursor, self.view) {
            (Some(c), SubjectModel::File(rel, _)) => {
                let ns = self.notes_of(rel);
                match note_under(ns, c.line, c.col, 0) {
                    Some(i) => Some((rel, Some(ns.remove(i)))),
                    None => Some((rel, None)),
                }
            },
            _ => None,
        }
    }

    /// With the first note under the cursor deleted, and how that is stored.
    #[verifier::opaque]
    pub open spec fn note_deleted(self) -> (AppModel, Option<EffectModel>) {
        match self.deletion() {
            Some((rel, Some(rest))) => (
                self.refiling(rel, rest).saying("note deleted"@).stale(),
                Some(EffectModel::Save(saved(self.root, rel, rest))),
            ),
            Some((rel, None)) => (self.saying("no note under cursor"@), None),
            None => (self, None),
        }
    }

    /// What becomes of the note in the input. A new note gets the given id and
    /// time stamp.
    pub open spec fn commitment(self, id: u64, created_at: Seq<char>) -> CommitModel {
        match (self.input, self.view) {
            (None, _) => CommitModel::Nothing,
            (Some(input), view) => {
                let text = trimmed(input.buffer);
                if text.len() == 0 {
                    CommitModel::Empty
                } else {
                    match view {
                        SubjectModel::Home => CommitModel::Nothing,
                        SubjectModel::File(rel, _) => match input.editing {
                            Some(edited) => if self.notes.contains_key(rel) {
                                CommitModel::Stored(rel, retold(self.notes[rel], edited, text), true)
                            } else {
                                CommitModel::Gone
                            },
                            None => self.composed(input, rel, text, id, created_at),
                        },
                    }
                }
            },
        }
    }

    /// What becomes of a new note: it is put after the others of its file, if it
    /// covers some text.
    pub open spec fn composed(
        self,
        input: InputModel,
        rel: Seq<char>,
        text: Seq<char>,
        id: u64,
        created_at: Seq<char>,
    ) -> CommitModel {
        let (a, b) = in_order(input.start, input.end);
        match covered_text(input.kind, self.annotate_lines, a, b) {
            Some(snippet) => CommitModel::Stored(
                rel,
                self.notes_of(rel).push(
                    NoteModel { id, kind: input.kind, start: a, end: b, text, snippet, created_at },
                ),
                false,
            ),
            None => CommitModel::Unanchored,
        }
    }

    /// With the note in the input saved, and how that is stored.
    #[verifier::opaque]
    pub open spec fn note_committed(self, id: u64, created_at: Seq<char>) -> (
        AppModel,
        Option<EffectModel>,
    ) {
        let s = AppModel { input: None, ..self };
        match self.commitment(id, created_at) {
            CommitModel::Nothing => (s, None),
            CommitModel::Empty => (s.saying("note discarded (empty)"@), None),
            CommitModel::Unanchored => (s.saying("could not anchor note"@), None),
            CommitModel::Gone => (s.stale().unselected(), None),
            CommitModel::Stored(rel, ns, updated) => (
                s.filing(rel, ns).stale().unselected(),
                Some(EffectModel::Commit(saved(self.root, rel, ns), updated)),
            ),
        }
    }

    /// With a report of how storing a note went.
    pub open spec fn reported(self, updated: bool, failure: Option<Seq<char>>) -> AppModel {
        self.saying(
            match failure {
                Some(e) => "note save failed: "@ + e,
                None => if updated { "note updated"@ } else { "note saved"@ },
            },
        )
    }
}

fn find_note_under(notes: &[Note], line: usize, col: usize) -> (r: Option<usize>)
    ensures
        match r {
            Some(i) => i < notes@.len() && note_under(models(notes@), line, col, 0) == Some(i as int),
            None => note_under(models(notes@), line, col, 0) is None,
        },
{
    let mut i: usize = 0;
    while i < notes.len()
        invariant
            i <= notes@.len(),
            note_under(models(notes@), line, col, 0) == note_under(models(notes@), line, col, i as int),
        decreases notes@.len() - i,
    {
        assert(models(notes@)[i as int] == notes@[i as int]@);
        if notes[i].contains(line, col) {
            return Some(i);
        }
        i += 1;
    }
    None
}

/// The notes, with another text for the first that has the given id.
fn retell(notes: &[Note], id: u64, text: String) -> (r: Vec<Note>)
    ensures
        models(r@) == retold(models(notes@), id, text@),
{
    let mut r = copy_notes(notes);
    assert(models(r@).len() == r@.len());
    assert(models(notes@).len() == notes@.len());
    let mut i: usize = 0;
    while i < r.len()
        invariant
            i <= r@.len(),
            models(r@) == models(notes@),
            note_with_id(models(notes@), id, 0) == note_with_id(models(notes@), id, i as int),
        decreases r@.len() - i,
    {
        assert(models(r@)[i as int] == r@[i as int]@);
        if r[i].id == id {
            let mut n = r[i].copy();
            n.text = text;
            let ghost before = models(r@);
            r.set(i, n);
            assert(models(r@) =~= before.update(i as int, n@));
            assert(n@ =~= NoteModel { text: text@, ..before[i as int] });
            return r;
        }
        i += 1;
    }
    r
}

/// What becomes of a note that is to be saved.
enum Commit {
    Nothing,
    Empty,
    Unanchored,
    Gone,
    Stored { rel: String, notes: Vec<Note>, updated: bool },
}

impl View for Commit {
    type V = CommitModel;

    closed spec fn view(&self) -> CommitModel {
        match *self {
            Commit::Nothing => CommitModel::Nothing,
            Commit::Empty => CommitModel::Empty,
            Commit::Unanchored => CommitModel::Unanchored,
            Commit::Gone => CommitModel::Gone,
            Commit::Stored { rel, notes, updated } => CommitModel::Stored(
                rel@,
                models(notes@),
                updated,
            ),
        }
    }
}

impl App {
    /// The path of the file in the preview, if it shows one.
    pub fn viewed_path(&self) -> (r: Option<String>)
        ensures
            match self@.view {
                SubjectModel::File(path, _) => text_in(r) == Some(path),
                SubjectModel::Home => r is None,
            },
    {
        match &self.view {
            Subject::File { path, .. } => Some(path.clone()),
            Subject::Home => None,
        }
    }

    /// A copy of the notes of a file.
    pub fn notes_copy(&self, rel: &str) -> (r: Vec<Note>)
        requires
            self.wf(),
        ensures
            models(r@) == self@.notes_of(rel@),
    {
        match self.notes.get(rel) {
            Some(ns) => copy_notes(ns.as_slice()),
            None => {
                let r: Vec<Note> = Vec::new();
                assert(models(r@) =~= Seq::empty());
                r
            },
        }
    }

    /// Ends the selection.
    fn unselect(&mut self)
        requires
            old(self).wf(),
        ensures
            final(self)@ == old(self)@.unselected(),
            final(self).wf(),
    {
        if let Some(c) = &self.cursor {
            let d = CursorState { line: c.line, col: c.col, anchor: None, kind: c.kind };
            self.cursor = Some(d);
        }
    }

    /// Puts a message in the status line.
    pub fn say(&mut self, message: &str)
        requires
            old(self).wf(),
        ensures
            final(self)@ == old(self)@.saying(message@),
            final(self).wf(),
    {
        self.message = message.to_string();
    }

    /// Has the preview drawn anew.
    pub(crate) fn mark_stale(&mut self)
        requires
            old(self).wf(),
        ensures
            final(self)@ == old(self)@.stale(),
            final(self).wf(),
    {
        self.needs_render = true;
    }

    /// Replaces the notes of a file.
    fn file_notes(&mut self, rel: &str, notes: Vec<Note>)
        requires
            old(self).wf(),
        ensures
            final(self)@ == old(self)@.filing(rel@, models(notes@)),
            final(self).wf(),
    {
        self.notes.insert(rel, notes);
    }

    /// Replaces the notes of a file, or takes the file out if there are none.
    fn refile_notes(&mut self, rel: &str, notes: Vec<Note>)
        requires
            old(self).wf(),
        ensures
            final(self)@ == old(self)@.refiling(rel@, models(notes@)),
            final(self).wf(),
    {
        assert(models(notes@).len() == notes@.len());
        if notes.len() == 0 {
            self.notes.remove(rel);
        } else {
            self.notes.insert(rel, notes);
        }
    }

    /// The input for the note under the cursor, or for a new note.
    fn note_input(&self) -> (r: Option<InputState>)
        requires
            self.wf(),
        ensures
            match r {
                Some(i) => self@.new_input() == Some(i@) && i.wf(),
                None => self@.new_input() is None,
            },
    {
        let c = match &self.cursor {
            Some(c) => c.copy(),
            None => {
                return None;
            },
        };
        let rel = match self.viewed_path() {
            Some(rel) => rel,
            None => {
                return None;
            },
        };
        let ns = self.notes_copy(rel.as_str());
        assert(models(ns@).len() == ns@.len());
        let under = find_note_under(ns.as_slice(), c.line, c.col);
        if let (None, Some(i)) = (c.anchor, under) {
            assert(models(ns@)[i as int] == ns@[i as int]@);
            return Some(
                InputState {
                    cursor: chars_of(ns[i].text.as_str()).len(),
                    buffer: ns[i].text.clone(),
                    kind: ns[i].kind,
                    start: (ns[i].start_line, ns[i].start_col),
                    end: (ns[i].end_line, ns[i].end_col),
                    editing: Some(ns[i].id),
                },
            );
        }
        let lines = self.annotate_lines.as_slice();
        let (kind, start, end) = match c.anchor {
            Some(a) => match c.kind {
                SelKind::Char => (
                    SelKind::Char,
                    clamp_to_character(lines, a),
                    clamp_to_character(lines, (c.line, c.col)),
                ),
                SelKind::Line => (SelKind::Line, a, (c.line, c.col)),
            },
            None => (SelKind::Line, (c.line, 0), (c.line, 0)),
        };
        let input = InputState { buffer: String::new(), cursor: 0, kind, start, end, editing: None };
        assert(input@.buffer =~= Seq::empty());
        Some(input)
    }

    /// Opens the note-text input. With nothing selected and the cursor resting on
    /// an existing note, this edits that note; otherwise it composes a new note
    /// over the selection (or the current line).
    pub fn begin_note(&mut self)
        requires
            old(self).wf(),
        ensures
            final(self)@ == old(self)@.note_begun(),
            final(self).wf(),
    {
        reveal(AppModel::note_begun);
        if let Some(input) = self.note_input() {
            self.input = Some(input);
            self.message = String::new();
            assert(self.message@ =~= Seq::empty());
        }
    }

    /// The file in the preview, and its notes without the one under the cursor.
    fn without_note_at_cursor(&self) -> (r: Option<(String, Option<Vec<Note>>)>)
        requires
            self.wf(),
        ensures
            match r {
                Some((rel, Some(ns))) => self@.deletion() == Some((rel@, Some(models(ns@)))),
                Some((rel, None)) => self@.deletion() == Some((rel@, None::<Seq<NoteModel>>)),
                None => self@.deletion() is None,
            },
    {
        let (line, col) = match &self.cursor {
            Some(c) => (c.line, c.col),
            None => {
                return None;
            },
        };
        let rel = match self.viewed_path() {
            Some(rel) => rel,
            None => {
                return None;
            },
        };
        let mut ns = self.notes_copy(rel.as_str());
        assert(models(ns@).len() == ns@.len());
        match find_note_under(ns.as_slice(), line, col) {
            Some(i) => {
                let ghost before = models(ns@);
                let _ = ns.remove(i);
                assert(models(ns@) =~= before.remove(i as int));
                Some((rel, Some(ns)))
            },
            None => Some((rel, None)),
        }
    }

    /// Deletes the first note covering the cursor position, if any.
    pub fn delete_note_at_cursor(&mut self) -> (r: Option<Effect>)
        requires
            old(self).wf(),
        ensures
            (final(self)@, effect_model(r)) == old(self)@.note_deleted(),
            final(self).wf(),
    {
        reveal(AppModel::note_deleted);
        match self.without_note_at_cursor() {
            Some((rel, Some(ns))) => {
                let action = save(self.root.as_str(), rel.as_str(), ns.as_slice());
                self.refile_notes(rel.as_str(), ns);
                self.say("note deleted");
                self.mark_stale();
                Some(Effect::Save { action })
            },
            Some((_, None)) => {
                self.say("no note under cursor");
                None
            },
            None => None,
        }
    }

    /// What becomes of the note in the input.
    fn commit(&self, at: &Moment) -> (r: Commit)
        requires
            self.wf(),
        ensures
            r@ == self@.commitment(at.id, at.created_at@),
    {
        let input = match &self.input {
            Some(input) => input,
            None => {
                return Commit::Nothing;
            },
        };
        let chars = chars_of(input.buffer.as_str());
        let text = string_of(trim(chars.as_slice()));
        if text.as_str().is_empty() {
            return Commit::Empty;
        }
        let rel = match self.viewed_path() {
            Some(rel) => rel,
            None => {
                return Commit::Nothing;
            },
        };
        match input.editing {
            Some(id) => match self.notes.get(rel.as_str()) {
                Some(ns) => {
                    let notes = retell(ns.as_slice(), id, text);
                    Commit::Stored { rel, notes, updated: true }
                },
                None => Commit::Gone,
            },
            None => match Note::anchored(
                input.kind,
                input.start,
                input.end,
                text,
                self.annotate_lines.as_slice(),
                at.id,
                at.created_at.clone(),
            ) {
                Some(note) => {
                    let mut notes = self.notes_copy(rel.as_str());
                    let ghost before = models(notes@);
                    notes.push(note);
                    assert(models(notes@) =~= before.push(note@));
                    Commit::Stored { rel, notes, updated: false }
                },
                None => Commit::Unanchored,
            },
        }
    }

    /// Closes the input.
    fn close_input(&mut self)
        requires
            old(self).wf(),
        ensures
            final(self)@ == (AppModel { input: None, ..old(self)@ }),
            final(self).wf(),
    {
        self.input = None;
    }

    /// Saves the note being composed or edited, anchoring new notes to their text.
    /// What is returned stores the notes of the file; how that went is to be
    /// reported.
    pub fn commit_note(&mut self, at: &Moment) -> (r: Option<Effect>)
        requires
            old(self).wf(),
        ensures
            (final(self)@, effect_model(r)) == old(self)@.note_committed(at.id, at.created_at@),
            final(self).wf(),
    {
        reveal(AppModel::note_committed);
        let commit = self.commit(at);
        self.close_input();
        match commit {
            Commit::Nothing => None,
            Commit::Empty => {
                self.say("note discarded (empty)");
                None
            },
            Commit::Unanchored => {
                self.say("could not anchor note");
                None
            },
            Commit::Gone => {
                self.mark_stale();
                self.unselect();
                None
            },
            Commit::Stored { rel, notes, updated } => {
                let action = save(self.root.as_str(), rel.as_str(), notes.as_slice());
                self.file_notes(rel.as_str(), notes);
                self.mark_stale();
                self.unselect();
                Some(Effect::Commit { action, updated })
            },
        }
    }

    /// Reports how storing a note went.
    pub fn report_commit(&mut self, updated: bool, failure: Option<&str>)
        requires
            old(self).wf(),
        ensures
            final(self)@ == old(self)@.reported(
                updated,
                match failure {
                    Some(e) => Some(e@),
                    None => None,
                },
            ),
            final(self).wf(),
    {
        self.message = match failure {
            Some(e) => {
                let mut m = "note save failed: ".to_string();
                push_text(&mut m, e);
                m
            },
            None => if updated {
                "note updated".to_string()
            } else {
                "note saved".to_string()
            },
        };
    }
}

// ---- Searching in the file ---------------------------------------------------

/// The columns at or after `from` where `needle` occurs in `hay`, none of them
/// within the occurrence before.
pub open spec fn columns_of(hay: Seq<char>, needle: Seq<char>, from: int) -> Seq<int>
    decreases hay.len() + 1 - from,
{
    match first_occurrence(hay, needle, from) {
        Some(i) => if needle.len() > 0 && i >= from && i + needle.len() <= hay.len() {
            seq![i] + columns_of(hay, needle, i + needle.len())
        } else {
            Seq::empty()
        },
        None => Seq::empty(),
    }
}

/// The columns as positions on a line.
pub open spec fn on_line(line: usize, columns: Seq<int>) -> Seq<Position> {
    columns.map_values(|c: int| (line, c as usize))
}

/// The positions where `needle` occurs in the lines, whatever their case, in
/// reading order.
pub open spec fn occurrences(lines: Seq<Seq<char>>, needle: Seq<char>) -> Seq<Position>
    decreases lines.len(),
{
    if lines.len() == 0 {
        Seq::empty()
    } else {
        occurrences(lines.drop_last(), needle) + on_line(
            lines.len() as usize,
            columns_of(lowercase(lines.last()), needle, 0),
        )
    }
}

/// The first of the positions that comes after `p`.
pub open spec fn first_after(positions: Seq<Position>, p: Position) -> Option<Position>
    decreases positions.len(),
{
    if positions.len() == 0 {
        None
    } else if precedes(p, positions[0]) {
        Some(positions[0])
    } else {
        first_after(positions.skip(1), p)
    }
}

impl AppModel {
    /// With the cursor on the next occurrence of `query`, or on the first one if
    /// there is none after the cursor.
    #[verifier::opaque]
    pub open spec fn found(self, query: Seq<char>) -> AppModel {
        match self.cursor {
            Some(c) => {
                let all = occurrences(self.annotate_lines, lowercase(query));
                match first_after(all, c.position()) {
                    Some(p) => self.with_cursor(c.to(p)).following_cursor().stale().saying(
                        "/"@ + query,
                    ),
                    None => if all.len() > 0 {
                        self.with_cursor(c.to(all[0])).following_cursor().stale().saying(
                            "/"@ + query + " (wrapped)"@,
                        )
                    } else {
                        self.saying("not found: "@ + query)
                    },
                }
            },
            None => self,
        }
    }

    /// After a key in the search prompt.
    #[verifier::opaque]
    pub open spec fn find_key(self, key: Key, ctrl: bool) -> AppModel {
        let typed = match self.find {
            Some(q) => q,
            None => Seq::empty(),
        };
        if key == Key::Esc {
            (AppModel { find: None, ..self }).saying("search cancelled"@)
        } else if key == Key::Enter {
            let query = if typed.len() > 0 {
                typed
            } else {
                match self.last_find {
                    Some(q) => q,
                    None => Seq::empty(),
                }
            };
            if query.len() == 0 {
                (AppModel { find: None, ..self }).saying("no search pattern"@)
            } else {
                (AppModel { find: None, last_find: Some(query), ..self }).found(query)
            }
        } else if key == Key::Backspace {
            match self.find {
                Some(q) => AppModel {
                    find: Some(shortened(q)),
                    ..self
                },
                None => self,
            }
        } else {
            match (key, self.find) {
                (Key::Char(c), Some(q)) if !ctrl => AppModel { find: Some(q.push(c)), ..self },
                _ => self,
            }
        }
    }
}

/// The columns where `needle` occurs in `hay`.
fn find_columns(hay: &[char], needle: &[char]) -> (r: Vec<usize>)
    requires
        needle@.len() > 0,
    ensures
        r@.map_values(|c: usize| c as int) == columns_of(hay@, needle@, 0),
{
    let mut r: Vec<usize> = Vec::new();
    let size = hay.len();
    let mut from: usize = 0;
    let ghost all = columns_of(hay@, needle@, 0);
    assert(r@.map_values(|c: usize| c as int) + all =~= all);
    loop
        invariant
            needle@.len() > 0,
            size == hay@.len(),
            from <= size,
            all == columns_of(hay@, needle@, 0),
            r@.map_values(|c: usize| c as int) + columns_of(hay@, needle@, from as int) == all,
        decreases size - from,
    {
        proof {
            lemma_first_occurrence(hay@, needle@, from as int);
        }
        match find_from(hay, needle, from) {
            Some(i) => {
                let ghost before = r@.map_values(|c: usize| c as int);
                r.push(i);
                proof {
                    assert(r@.map_values(|c: usize| c as int) =~= before.push(i as int));
                    let rest = columns_of(hay@, needle@, i + needle@.len());
                    assert(before.push(i as int) + rest =~= before + (seq![i as int] + rest));
                }
                from = i + needle.len();
            },
            None => {
                assert(r@.map_values(|c: usize| c as int) =~= all);
                return r;
            },
        }
    }
}

/// The positions where `needle` occurs in the lines, whatever their case.
fn find_all(lines: &[String], needle: &[char]) -> (r: Vec<Position>)
    requires
        needle@.len() > 0,
    ensures
        r@ == occurrences(texts(lines@), needle@),
        forall|k: int| 0 <= k < r@.len() ==> (#[trigger] r@[k]).0 >= 1,
{
    let mut r: Vec<Position> = Vec::new();
    let mut i: usize = 0;
    let size = lines.len();
    let ghost t = texts(lines@);
    assert(t.take(0) =~= Seq::empty());
    while i < size
        invariant
            needle@.len() > 0,
            i <= size == lines@.len(),
            t == texts(lines@),
            r@ == occurrences(t.take(i as int), needle@),
            forall|k: int| 0 <= k < r@.len() ==> (#[trigger] r@[k]).0 >= 1,
        decreases size - i,
    {
        let line = chars_of(lines[i].as_str());
        let hay = lowered(line.as_slice());
        let columns = find_columns(hay.as_slice(), needle);
        let ghost before = r@;
        let ghost want = columns_of(lowercase(t[i as int]), needle@, 0);
        proof {
            assert(t.take(i + 1).drop_last() =~= t.take(i as int));
            assert(t.take(i + 1).last() == t[i as int]);
            assert(want == columns@.map_values(|c: usize| c as int));
        }
        let mut k: usize = 0;
        while k < columns.len()
            invariant
                i < size,
                k <= columns@.len(),
                want == columns@.map_values(|c: usize| c as int),
                r@ == before + on_line((i + 1) as usize, want.take(k as int)),
                forall|k: int| 0 <= k < r@.len() ==> (#[trigger] r@[k]).0 >= 1,
            decreases columns@.len() - k,
        {
            r.push((i + 1, columns[k]));
            assert(on_line((i + 1) as usize, want.take(k + 1)) =~= on_line(
                (i + 1) as usize,
                want.take(k as int),
            ).push(((i + 1) as usize, columns@[k as int])));
            k += 1;
        }
        assert(want.take(k as int) =~= want);
        i += 1;
    }
    assert(t.take(i as int) =~= t);
    r
}

/// The first of the positions that comes after `p`.
fn find_after(positions: &Vec<Position>, p: Position) -> (r: Option<Position>)
    ensures
        r == first_after(positions@, p),
        r matches Some(q) ==> positions@.contains(q),
{
    let mut i: usize = 0;
    assert(positions@.skip(0) =~= positions@);
    while i < positions.len()
        invariant
            i <= positions@.len(),
            first_after(positions@, p) == first_after(positions@.skip(i as int), p),
        decreases positions@.len() - i,
    {
        assert(positions@.skip(i as int)[0] == positions@[i as int]);
        assert(positions@.skip(i as int).skip(1) =~= positions@.skip(i + 1));
        let q = positions[i];
        if crate::notes::before(p, q) {
            return Some(q);
        }
        i += 1;
    }
    None
}

impl App {
    /// Moves the cursor, keeps it on the screen, and says why.
    fn jump_to(&mut self, p: Position, message: &str)
        requires
            old(self).wf(),
            old(self)@.cursor is Some,
            p.0 >= 1,
        ensures
            final(self)@ == old(self)@.with_cursor(
                old(self)@.cursor.unwrap().to(p),
            ).following_cursor().stale().saying(message@),
            final(self).wf(),
    {
        self.move_cursor(p);
        self.ensure_cursor_visible();
        self.mark_stale();
        self.say(message);
    }

    /// Moves the cursor.
    fn move_cursor(&mut self, p: Position)
        requires
            old(self).wf(),
            old(self)@.cursor is Some,
            p.0 >= 1,
        ensures
            final(self)@ == old(self)@.with_cursor(old(self)@.cursor.unwrap().to(p)),
            final(self).wf(),
    {
        if let Some(c) = &self.cursor {
            let d = CursorState { line: p.0, col: p.1, anchor: c.anchor, kind: c.kind };
            self.cursor = Some(d);
        }
    }

    /// Moves the annotate cursor to the next case-insensitive match of `query`
    /// after the current position, wrapping around the file.
    pub fn find_jump(&mut self, query: &str)
        requires
            old(self).wf(),
            query@.len() > 0,
        ensures
            final(self)@ == old(self)@.found(query@),
            final(self).wf(),
    {
        reveal(AppModel::found);
        let p = match &self.cursor {
            Some(c) => (c.line, c.col),
            None => {
                return;
            },
        };
        let chars = chars_of(query);
        let needle = lowered(chars.as_slice());
        let all = find_all(self.annotate_lines.as_slice(), needle.as_slice());
        match find_after(&all, p) {
            Some(q) => {
                let mut message = "/".to_string();
                push_text(&mut message, query);
                assert(q.0 >= 1) by {
                    let k = choose|k: int| 0 <= k < all@.len() && all@[k] == q;
                    assert(all@[k].0 >= 1);
                }
                self.jump_to(q, message.as_str());
            },
            None => {
                if all.len() > 0 {
                    let mut message = "/".to_string();
                    push_text(&mut message, query);
                    push_text(&mut message, " (wrapped)");
                    let q = all[0];
                    self.jump_to(q, message.as_str());
                } else {
                    let mut message = "not found: ".to_string();
                    push_text(&mut message, query);
                    self.say(message.as_str());
                }
            },
        }
    }
}

// ---- Keys --------------------------------------------------------------------

impl InputModel {
    /// After a key that is not about the box as a whole.
    pub open spec fn keyed(self, key: Key, ctrl: bool) -> InputModel {
        match key {
            Key::Enter => self.inserted('\n'),
            Key::Backspace => self.backspaced(),
            Key::Delete => self.deleted(),
            Key::Left => self.moved_left(),
            Key::Right => self.moved_right(),
            Key::Up => self.moved_up(),
            Key::Down => self.moved_down(),
            Key::Home => self.moved_home(),
            Key::End => self.moved_end(),
            Key::Char(c) => if ctrl { self } else { self.inserted(c) },
            _ => self,
        }
    }
}

impl AppModel {
    /// After a key while a note is typed in: Ctrl+S saves, Esc cancels, the rest
    /// goes to the box.
    #[verifier::opaque]
    pub open spec fn input_key(self, key: Key, ctrl: bool, id: u64, created_at: Seq<char>) -> (
        AppModel,
        Option<EffectModel>,
    ) {
        if key == Key::Esc {
            ((AppModel { input: None, ..self }).saying("note cancelled"@), None)
        } else if key == Key::Char('s') && ctrl {
            self.note_committed(id, created_at)
        } else {
            match self.input {
                Some(i) => (AppModel { input: Some(i.keyed(key, ctrl)), ..self }, None),
                None => (self, None),
            }
        }
    }

    /// With the selection copied, and no longer live.
    #[verifier::opaque]
    pub open spec fn yanked(self) -> AppModel {
        match self.selection() {
            Some(t) => self.stale().saying(
                "yanked "@ + decimal(t.len()) + " char(s)"@,
            ).unselected(),
            None => self.stale().saying("nothing selected"@),
        }
    }

    /// After a key while the cursor is active: the state, whether the key meant
    /// something, and what is asked for. A live selection goes to the clipboard as
    /// it grows.
    #[verifier::opaque]
    pub open spec fn cursor_key(self, key: Key) -> (AppModel, bool, Option<EffectModel>) {
        match self.cursor {
            None => (self, false, None),
            Some(c) => {
                let s = self.with_cursor(cursor_after(c, key, self.annotate_lines));
                match cursor_step(c, key, self.annotate_lines).1 {
                    CursorCommand::Pass => (self, false, None),
                    CursorCommand::Exit => (s.not_annotating(), true, None),
                    CursorCommand::Yank => (s.yanked(), true, s.copying()),
                    CursorCommand::Delete => {
                        let (t, effect) = s.note_deleted();
                        (t.following_cursor().stale(), true, effect)
                    },
                    CursorCommand::Comment => (s.note_begun().following_cursor().stale(), true, None),
                    CursorCommand::Find => {
                        let t = (AppModel { find: Some(Seq::empty()), ..s }).saying(Seq::empty());
                        (t.following_cursor().stale(), true, s.copying())
                    },
                    CursorCommand::Move => (s.following_cursor().stale(), true, s.copying()),
                }
            },
        }
    }
}

impl App {
    /// Sets the query that is typed in the search prompt, or closes it.
    fn set_find(&mut self, find: Option<String>)
        requires
            old(self).wf(),
        ensures
            final(self)@ == (AppModel { find: text_in(find), ..old(self)@ }),
            final(self).wf(),
    {
        self.find = find;
    }

    /// Closes the search prompt and keeps the query for the next search.
    fn keep_query(&mut self, query: &str)
        requires
            old(self).wf(),
        ensures
            final(self)@ == (AppModel { find: None, last_find: Some(query@), ..old(self)@ }),
            final(self).wf(),
    {
        self.find = None;
        self.last_find = Some(query.to_string());
    }

    /// The query that Enter searches for: the one typed, or the last one.
    fn query(&self) -> (r: String)
        ensures
            r@ == (match self@.find {
                Some(q) if q.len() > 0 => q,
                _ => match self@.last_find {
                    Some(q) => q,
                    None => Seq::empty(),
                },
            }),
    {
        if let Some(q) = &self.find {
            if !q.as_str().is_empty() {
                return q.clone();
            }
        }
        match &self.last_find {
            Some(q) => q.clone(),
            None => String::new(),
        }
    }

    /// Handles a keypress while the in-annotate search prompt (`/`) is open.
    pub fn handle_find_key(&mut self, key: Key, ctrl: bool)
        requires
            old(self).wf(),
        ensures
            final(self)@ == old(self)@.find_key(key, ctrl),
            final(self).wf(),
    {
        reveal(AppModel::find_key);
        match key {
            Key::Esc => {
                self.set_find(None);
                self.say("search cancelled");
            },
            Key::Enter => {
                let query = self.query();
                if query.as_str().is_empty() {
                    self.set_find(None);
                    self.say("no search pattern");
                } else {
                    self.keep_query(query.as_str());
                    self.find_jump(query.as_str());
                }
            },
            Key::Backspace => {
                let next = match &self.find {
                    Some(q) => shorten(q.as_str()),
                    None => {
                        return;
                    },
                };
                self.set_find(Some(next));
            },
            Key::Char(c) => {
                if ctrl {
                    return;
                }
                let mut next = match &self.find {
                    Some(q) => q.clone(),
                    None => {
                        return;
                    },
                };
                next.push(c);
                self.set_find(Some(next));
            },
            _ => {},
        }
    }

    /// Handles a keypress while a note is typed in.
    pub fn handle_input_key(&mut self, key: Key, ctrl: bool, at: &Moment) -> (r: Option<Effect>)
        requires
            old(self).wf(),
        ensures
            (final(self)@, effect_model(r)) == old(self)@.input_key(key, ctrl, at.id, at.created_at@),
            final(self).wf(),
    {
        reveal(AppModel::input_key);
        if key == Key::Esc {
            self.close_input();
            self.say("note cancelled");
            return None;
        }
        if key == Key::Char('s') && ctrl {
            return self.commit_note(at);
        }
        self.type_in(key, ctrl);
        None
    }

    /// Hands a key to the box.
    fn type_in(&mut self, key: Key, ctrl: bool)
        requires
            old(self).wf(),
        ensures
            final(self)@ == (match old(self)@.input {
                Some(i) => AppModel { input: Some(i.keyed(key, ctrl)), ..old(self)@ },
                None => old(self)@,
            }),
            final(self).wf(),
    {
        if let Some(i) = self.input.take() {
            let next = press(i, key, ctrl);
            self.input = Some(next);
        }
    }

    /// Copies the selection and ends it.
    fn yank(&mut self) -> (r: Option<Effect>)
        requires
            old(self).wf(),
        ensures
            final(self)@ == old(self)@.yanked(),
            effect_model(r) == old(self)@.copying(),
            final(self).wf(),
    {
        reveal(AppModel::yanked);
        let copied = self.copy_selection();
        self.mark_stale();
        match copied {
            Some(text) => {
                let mut message = "yanked ".to_string();
                push_decimal(&mut message, chars_of(text.as_str()).len() as u128);
                push_text(&mut message, " char(s)");
                self.say(message.as_str());
                self.unselect();
                Some(Effect::Copy { text })
            },
            None => {
                self.say("nothing selected");
                None
            },
        }
    }

    /// What puts the selection on the clipboard.
    pub fn copy_effect(&self) -> (r: Option<Effect>)
        ensures
            effect_model(r) == self@.copying(),
    {
        match self.copy_selection() {
            Some(text) => Some(Effect::Copy { text }),
            None => None,
        }
    }

    /// Sets the cursor.
    fn set_cursor(&mut self, c: CursorState)
        requires
            old(self).wf(),
            old(self)@.cursor is Some,
            c.wf(),
        ensures
            final(self)@ == old(self)@.with_cursor(c),
            final(self).wf(),
    {
        self.cursor = Some(c);
    }

    /// Handles a keypress while the annotate cursor is active. Returns whether the
    /// key was consumed (unconsumed keys fall through to the global bindings), and
    /// what is asked for.
    pub fn handle_cursor_key(&mut self, key: Key) -> (r: (bool, Option<Effect>))
        requires
            old(self).wf(),
        ensures
            (final(self)@, r.0, effect_model(r.1)) == old(self)@.cursor_key(key),
            !r.0 ==> final(self)@ == old(self)@,
            final(self).wf(),
    {
        reveal(AppModel::cursor_key);
        let (c, command) = match &self.cursor {
            Some(c) => step_cursor(c, key, self.annotate_lines.as_slice()),
            None => {
                return (false, None);
            },
        };
        if command == CursorCommand::Pass {
            return (false, None);
        }
        self.set_cursor(c);
        let mut effect: Option<Effect> = None;
        match command {
            CursorCommand::Exit => {
                self.exit_annotate();
                return (true, None);
            },
            CursorCommand::Yank => {
                let copied = self.yank();
                return (true, copied);
            },
            CursorCommand::Delete => {
                effect = self.delete_note_at_cursor();
            },
            CursorCommand::Comment => {
                self.begin_note();
            },
            CursorCommand::Find => {
                effect = self.copy_effect();
                let empty = String::new();
                assert(empty@ =~= Seq::empty());
                self.set_find(Some(empty));
                proof {
                    reveal_strlit("");
                    assert(""@ =~= Seq::<char>::empty());
                }
                self.say("");
            },
            _ => {
                effect = self.copy_effect();
            },
        }
        self.ensure_cursor_visible();
        self.mark_stale();
        (true, effect)
    }
}

/// What the box holds after a key.
fn press(input: InputState, key: Key, ctrl: bool) -> (r: InputState)
    requires
        input.wf(),
    ensures
        r@ == input@.keyed(key, ctrl),
        r.wf(),
{
    let mut i = input;
    match key {
        Key::Enter => i.insert('\n'),
        Key::Backspace => i.backspace(),
        Key::Delete => i.delete(),
        Key::Left => i.left(),
        Key::Right => i.right(),
        Key::Up => i.up(),
        Key::Down => i.down(),
        Key::Home => i.home(),
        Key::End => i.end(),
        Key::Char(c) => {
            if !ctrl {
                i.insert(c);
            }
        },
        _ => {},
    }
    i
}

}

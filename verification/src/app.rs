//! The state of the application, and what moves it: the file list, the preview
//! and its scrolling, the switches.

use crate::git::{status_models, ChangedFile, StatusModel};
use crate::hunks::{analyze_hunks, mark_models, marks_of, HunkMark, MarkModel};
use crate::input::{InputModel, InputState};
use crate::notebook::NoteBook;
use crate::notes::{NoteModel, Position, SelKind};
use crate::screen::{greatest, least, left_of, truncate_u16, truncated, Rect};
use crate::style::{line_models, Line, SpanModel};
use crate::text::{chars_of, pieces, same_text, slices, split, text_in, texts};
use vstd::prelude::*;

verus! {

// ---- State -------------------------------------------------------------------

/// What the preview pane is currently showing.
#[derive(Debug)]
pub enum Subject {
    /// The whole-project diff.
    Home,
    /// A single file, optionally scrolled to a line.
    File { path: String, line: Option<usize> },
}

/// What the preview pane is showing.
pub enum SubjectModel {
    Home,
    File(Seq<char>, Option<usize>),
}

impl View for Subject {
    type V = SubjectModel;

    open spec fn view(&self) -> SubjectModel {
        match *self {
            Subject::Home => SubjectModel::Home,
            Subject::File { path, line } => SubjectModel::File(path@, line),
        }
    }
}

/// Which pane `j`/`k` act on.
#[derive(Clone, Copy, Debug, PartialEq, Eq, Structural)]
pub enum Focus {
    Left,
    Right,
}

/// Which set of repository files is visible in the left panel.
#[derive(Clone, Copy, Debug, PartialEq, Eq, Structural)]
pub enum FileListMode {
    All,
    Changes,
}

/// What a search covers.
#[derive(Clone, Copy, Debug, PartialEq, Eq, Structural)]
pub enum SearchScope {
    Project,
    File,
}

/// How diffs are laid out (delta rendering).
#[derive(Clone, Copy, Debug, PartialEq, Eq, Structural)]
pub enum DiffMode {
    /// Unified ("stacked") diff.
    Stacked,
    /// Two-column side-by-side diff.
    SideBySide,
    /// Side-by-side when the preview is wide enough, otherwise stacked.
    Auto,
}

impl FileListMode {
    /// What the mode is called.
    pub open spec fn name(self) -> Seq<char> {
        match self {
            FileListMode::All => "All files"@,
            FileListMode::Changes => "Changes"@,
        }
    }

    /// What the mode is called.
    pub fn label(self) -> (r: String)
        ensures
            r@ == self.name(),
    {
        match self {
            FileListMode::All => "All files".to_string(),
            FileListMode::Changes => "Changes".to_string(),
        }
    }

    /// The other mode.
    pub open spec fn other(self) -> FileListMode {
        match self {
            FileListMode::All => FileListMode::Changes,
            FileListMode::Changes => FileListMode::All,
        }
    }
}

impl DiffMode {
    /// What the mode is called.
    pub open spec fn name(self) -> Seq<char> {
        match self {
            DiffMode::Stacked => "stacked"@,
            DiffMode::SideBySide => "side-by-side"@,
            DiffMode::Auto => "auto"@,
        }
    }

    /// What the mode is called.
    pub fn label(self) -> (r: String)
        ensures
            r@ == self.name(),
    {
        match self {
            DiffMode::Stacked => "stacked".to_string(),
            DiffMode::SideBySide => "side-by-side".to_string(),
            DiffMode::Auto => "auto".to_string(),
        }
    }
}

/// Cursor and visual selection in the annotate view.
#[derive(Debug)]
pub struct CursorState {
    /// 1-based file line.
    pub line: usize,
    /// 0-based character column into the tab-expanded line (may equal the line
    /// length, i.e. resting just past the last character).
    pub col: usize,
    /// Visual-selection anchor (1-based line, 0-based col); `None` unless a
    /// `v`/`V` selection is in progress.
    pub anchor: Option<Position>,
    /// Character- or line-wise selection (meaningful while `anchor` is set).
    pub kind: SelKind,
}

impl CursorState {
    /// Whether the cursor and the anchor are on lines that count from 1.
    pub open spec fn wf(self) -> bool {
        self.line >= 1 && (self.anchor matches Some(a) ==> a.0 >= 1)
    }

    /// Where the cursor is.
    pub open spec fn position(self) -> Position {
        (self.line, self.col)
    }

    /// A copy of the cursor.
    pub fn copy(&self) -> (r: CursorState)
        ensures
            r == *self,
    {
        CursorState { line: self.line, col: self.col, anchor: self.anchor, kind: self.kind }
    }
}

/// Minimum preview width (columns) at which Auto switches to side-by-side.
pub const AUTO_SIDE_BY_SIDE_WIDTH: u16 = 120;

/// How many nanoseconds a second Ctrl+C may come after the first to confirm exit.
pub const QUIT_WINDOW: u64 = 2_000_000_000;

/// After how many milliseconds without an event the diff is refreshed, where it
/// is refreshed by itself.
pub const TICK: u64 = 750;

/// The state of the application.
pub struct App {
    pub root: String,
    pub files: Vec<ChangedFile>,
    pub all_files: Vec<String>,
    pub file_list_mode: FileListMode,
    pub show_hidden: bool,
    /// The selected row of the list, and the first row that is on the screen.
    pub selected: Option<usize>,
    pub offset: usize,
    pub view: Subject,
    pub preview: Vec<Line>,
    pub scroll: u16,
    pub preview_width: u16,
    pub preview_height: u16,
    pub needs_render: bool,
    pub message: String,
    pub focus: Focus,
    pub show_left: bool,
    pub diff_mode: DiffMode,
    /// Hunks located in the current preview, for `[`/`]` and `e`.
    pub hunks: Vec<HunkMark>,
    /// Whether the diff auto-refreshes on the idle tick.
    pub auto_refresh: bool,
    /// Whether the keybinding help overlay is shown.
    pub show_help: bool,
    /// Whether the preview wraps long lines.
    pub wrap: bool,
    /// Panel rectangles from the last layout, for mouse hit-testing.
    pub list_area: Rect,
    pub preview_area: Rect,
    /// When the last Ctrl+C came, for the two-press exit.
    pub pending_quit: Option<u64>,
    /// Anchored review notes, by repository-relative path.
    pub notes: NoteBook,
    /// Whether the right pane shows the plain, note-aware annotate view.
    pub annotate: bool,
    /// Cursor and selection while annotating.
    pub cursor: Option<CursorState>,
    /// Tab-expanded lines of the file currently shown in the annotate view.
    pub annotate_lines: Vec<String>,
    /// Column (within a preview line) where content begins after the gutter, for
    /// mapping mouse clicks to file columns in the annotate view.
    pub annotate_gutter: usize,
    /// Anchor (file line, col) of an in-progress mouse selection.
    pub mouse_anchor: Option<Position>,
    /// Whether the last left-press landed on the preview pane (arms mouse drag).
    pub mouse_down_preview: bool,
    /// A note comment being typed in (`c`), if any.
    pub input: Option<InputState>,
    /// In-annotate text search: the query being typed (`/`), if active.
    pub find: Option<String>,
    /// The last committed in-annotate search query, for repeat searches.
    pub last_find: Option<String>,
    pub quit: bool,
}

/// The state of the application.
#[verifier::ext_equal]
pub struct AppModel {
    pub root: Seq<char>,
    pub files: Seq<StatusModel>,
    pub all_files: Seq<Seq<char>>,
    pub file_list_mode: FileListMode,
    pub show_hidden: bool,
    pub selected: Option<usize>,
    pub offset: usize,
    pub view: SubjectModel,
    pub preview: Seq<Seq<SpanModel>>,
    pub scroll: u16,
    pub preview_width: u16,
    pub preview_height: u16,
    pub needs_render: bool,
    pub message: Seq<char>,
    pub focus: Focus,
    pub show_left: bool,
    pub diff_mode: DiffMode,
    pub hunks: Seq<MarkModel>,
    pub auto_refresh: bool,
    pub show_help: bool,
    pub wrap: bool,
    pub list_area: Rect,
    pub preview_area: Rect,
    pub pending_quit: Option<u64>,
    pub notes: Map<Seq<char>, Seq<NoteModel>>,
    pub annotate: bool,
    pub cursor: Option<CursorState>,
    pub annotate_lines: Seq<Seq<char>>,
    pub annotate_gutter: usize,
    pub mouse_anchor: Option<Position>,
    pub mouse_down_preview: bool,
    pub input: Option<InputModel>,
    pub find: Option<Seq<char>>,
    pub last_find: Option<Seq<char>>,
    pub quit: bool,
}

impl View for App {
    type V = AppModel;

    open spec fn view(&self) -> AppModel {
        AppModel {
            root: self.root@,
            files: status_models(self.files@),
            all_files: texts(self.all_files@),
            file_list_mode: self.file_list_mode,
            show_hidden: self.show_hidden,
            selected: self.selected,
            offset: self.offset,
            view: self.view@,
            preview: line_models(self.preview@),
            scroll: self.scroll,
            preview_width: self.preview_width,
            preview_height: self.preview_height,
            needs_render: self.needs_render,
            message: self.message@,
            focus: self.focus,
            show_left: self.show_left,
            diff_mode: self.diff_mode,
            hunks: mark_models(self.hunks@),
            auto_refresh: self.auto_refresh,
            show_help: self.show_help,
            wrap: self.wrap,
            list_area: self.list_area,
            preview_area: self.preview_area,
            pending_quit: self.pending_quit,
            notes: self.notes@,
            annotate: self.annotate,
            cursor: self.cursor,
            annotate_lines: texts(self.annotate_lines@),
            annotate_gutter: self.annotate_gutter,
            mouse_anchor: self.mouse_anchor,
            mouse_down_preview: self.mouse_down_preview,
            input: match self.input {
                Some(i) => Some(i@),
                None => None,
            },
            find: text_in(self.find),
            last_find: text_in(self.last_find),
            quit: self.quit,
        }
    }
}

impl AppModel {
    /// Whether the parts of the state fit each other: there is a cursor exactly
    /// while annotating, lines count from 1, the insertion point is in its text,
    /// the rows of the list can be counted, and the panels are on the grid.
    pub open spec fn wf(self) -> bool {
        &&& self.annotate == self.cursor is Some
        &&& self.cursor matches Some(c) ==> c.wf()
        &&& self.mouse_anchor matches Some(a) ==> a.0 >= 1
        &&& self.input matches Some(i) ==> i.wf()
        &&& self.files.len() < usize::MAX
        &&& self.all_files.len() < usize::MAX
        &&& self.list_area.wf()
        &&& self.preview_area.wf()
    }

    /// With a message in the status line.
    pub open spec fn saying(self, message: Seq<char>) -> AppModel {
        AppModel { message, ..self }
    }
}

impl App {
    /// Whether the state is one that the application can be in.
    pub open spec fn wf(&self) -> bool {
        self@.wf() && self.notes.wf()
    }
}

// ---- The file list -----------------------------------------------------------

/// Whether a component of `path` starts with a dot.
pub open spec fn is_hidden(path: Seq<char>) -> bool {
    exists|i: int|
        0 <= i < pieces(path, '/').len() && (#[trigger] pieces(path, '/')[i]).len() > 0 && pieces(
            path,
            '/',
        )[i][0] == '.'
}

/// Whether a component of `path` starts with a dot.
pub fn is_hidden_path(path: &str) -> (r: bool)
    ensures
        r == is_hidden(path@),
{
    let chars = chars_of(path);
    let parts = split(chars.as_slice(), '/');
    let mut i: usize = 0;
    while i < parts.len()
        invariant
            i <= parts@.len(),
            slices(parts@) == pieces(path@, '/'),
            forall|j: int|
                0 <= j < i ==> !((#[trigger] pieces(path@, '/')[j]).len() > 0 && pieces(path@, '/')[j][0]
                    == '.'),
        decreases parts@.len() - i,
    {
        assert(slices(parts@)[i as int] == parts@[i as int]@);
        if parts[i].len() > 0 && parts[i][0] == '.' {
            assert(pieces(path@, '/')[i as int].len() > 0);
            return true;
        }
        i += 1;
    }
    false
}

/// The paths that are shown: all, or those that are not hidden.
pub open spec fn shown_paths(paths: Seq<Seq<char>>, show_hidden: bool) -> Seq<Seq<char>>
    decreases paths.len(),
{
    if paths.len() == 0 {
        Seq::empty()
    } else if show_hidden || !is_hidden(paths.last()) {
        shown_paths(paths.drop_last(), show_hidden).push(paths.last())
    } else {
        shown_paths(paths.drop_last(), show_hidden)
    }
}

proof fn lemma_shown_paths(paths: Seq<Seq<char>>, show_hidden: bool)
    ensures
        shown_paths(paths, show_hidden).len() <= paths.len(),
    decreases paths.len(),
{
    if paths.len() > 0 {
        lemma_shown_paths(paths.drop_last(), show_hidden);
    }
}

/// The paths of changed files.
pub open spec fn changed_paths(files: Seq<StatusModel>) -> Seq<Seq<char>> {
    files.map_values(|f: StatusModel| f.path)
}

/// The first index at or after `from` where `path` stands.
pub open spec fn place_of(paths: Seq<Seq<char>>, path: Seq<char>, from: int) -> Option<int>
    decreases paths.len() - from,
{
    if from >= paths.len() {
        None
    } else if paths[from] == path {
        Some(from)
    } else {
        place_of(paths, path, from + 1)
    }
}

impl AppModel {
    /// The files in the list, in order.
    pub open spec fn visible(self) -> Seq<Seq<char>> {
        match self.file_list_mode {
            FileListMode::All => shown_paths(self.all_files, self.show_hidden),
            FileListMode::Changes => shown_paths(changed_paths(self.files), self.show_hidden),
        }
    }

    /// The selected file; none for the row of the project root.
    pub open spec fn selected_file(self) -> Option<Seq<char>> {
        match self.selected {
            Some(i) => if 0 < i <= self.visible().len() { Some(self.visible()[i - 1]) } else { None },
            None => None,
        }
    }

    /// With another row selected. The list starts at its top again when none is.
    pub open spec fn selecting(self, row: Option<usize>) -> AppModel {
        AppModel { selected: row, offset: if row is None { 0 } else { self.offset }, ..self }
    }

    /// With the row of `path` selected; that of the project root if it is not in
    /// the list.
    pub open spec fn selecting_path(self, path: Option<Seq<char>>) -> AppModel {
        self.selecting(
            Some(
                match path {
                    Some(p) => match place_of(self.visible(), p, 0) {
                        Some(i) => (i + 1) as usize,
                        None => 0,
                    },
                    None => 0,
                },
            ),
        )
    }

    /// With the cursor and the input reset for another view. A file that has
    /// notes opens in the annotate view, everything else in the diff view.
    pub open spec fn reset(self) -> AppModel {
        match self.view {
            SubjectModel::File(path, line) if self.notes.contains_key(path) && self.notes[path].len()
                > 0 => AppModel {
                annotate: true,
                cursor: Some(
                    CursorState {
                        line: match line {
                            Some(l) => if l >= 1 { l } else { 1 },
                            None => 1,
                        },
                        col: 0,
                        anchor: None,
                        kind: SelKind::Char,
                    },
                ),
                input: None,
                ..self
            },
            _ => AppModel { annotate: false, cursor: None, input: None, ..self },
        }
    }

    /// With the view of `subject`, from its top.
    pub open spec fn viewing(self, subject: SubjectModel) -> AppModel {
        (AppModel { view: subject, scroll: 0, needs_render: true, ..self }).reset()
    }

    /// With the view of the selected row.
    pub open spec fn viewing_selected(self) -> AppModel {
        self.viewing(
            match self.selected_file() {
                Some(path) => SubjectModel::File(path, None),
                None => SubjectModel::Home,
            },
        )
    }

    /// With the next row selected.
    pub open spec fn next_selected(self) -> AppModel {
        let cur = match self.selected {
            Some(i) => i as int,
            None => 0,
        };
        self.selecting(Some(least(cur + 1, self.visible().len() as int) as usize)).viewing_selected()
    }

    /// With the row before selected.
    pub open spec fn previous_selected(self) -> AppModel {
        let cur = match self.selected {
            Some(i) => i as int,
            None => 0,
        };
        self.selecting(Some(left_of(cur, 1) as usize)).viewing_selected()
    }

    /// With a file opened, at `line` when known. Its row is selected when it is in
    /// the list, else none is.
    pub open spec fn opening(self, path: Seq<char>, line: Option<usize>) -> AppModel {
        self.selecting(
            match place_of(self.visible(), path, 0) {
                Some(i) => Some((i + 1) as usize),
                None => None,
            },
        ).viewing(SubjectModel::File(path, line))
    }
}

/// The texts that are shown, of a list of paths.
fn filter_paths(paths: &[String], show_hidden: bool) -> (r: Vec<String>)
    ensures
        texts(r@) == shown_paths(texts(paths@), show_hidden),
{
    let mut r: Vec<String> = Vec::new();
    let mut i: usize = 0;
    assert(texts(r@) =~= Seq::empty());
    assert(texts(paths@).take(0) =~= Seq::empty());
    while i < paths.len()
        invariant
            i <= paths@.len(),
            texts(r@) == shown_paths(texts(paths@).take(i as int), show_hidden),
        decreases paths@.len() - i,
    {
        proof {
            let upto = texts(paths@).take(i + 1);
            assert(upto.drop_last() =~= texts(paths@).take(i as int));
            assert(upto.last() == paths@[i as int]@);
        }
        if show_hidden || !is_hidden_path(paths[i].as_str()) {
            let ghost before = texts(r@);
            r.push(paths[i].clone());
            assert(texts(r@) =~= before.push(paths@[i as int]@));
        }
        i += 1;
    }
    assert(texts(paths@).take(i as int) =~= texts(paths@));
    r
}

/// The paths of changed files.
pub fn paths_of(files: &[ChangedFile]) -> (r: Vec<String>)
    ensures
        texts(r@) == changed_paths(status_models(files@)),
{
    let mut r: Vec<String> = Vec::new();
    let mut i: usize = 0;
    while i < files.len()
        invariant
            i <= files@.len(),
            r@.len() == i,
            forall|j: int| 0 <= j < i ==> (#[trigger] r@[j])@ == files@[j].path@,
        decreases files@.len() - i,
    {
        r.push(files[i].path.clone());
        i += 1;
    }
    assert(texts(r@) =~= changed_paths(status_models(files@)));
    r
}

/// The first index where `path` stands.
pub fn position_of(paths: &[String], path: &str) -> (r: Option<usize>)
    ensures
        match r {
            Some(i) => place_of(texts(paths@), path@, 0) == Some(i as int) && i < paths@.len(),
            None => place_of(texts(paths@), path@, 0) is None,
        },
{
    let mut i: usize = 0;
    while i < paths.len()
        invariant
            i <= paths@.len(),
            place_of(texts(paths@), path@, 0) == place_of(texts(paths@), path@, i as int),
        decreases paths@.len() - i,
    {
        assert(texts(paths@)[i as int] == paths@[i as int]@);
        if same_text(paths[i].as_str(), path) {
            return Some(i);
        }
        i += 1;
    }
    None
}

impl App {
    /// The files in the list, in order.
    pub fn visible_files(&self) -> (r: Vec<String>)
        requires
            self.wf(),
        ensures
            texts(r@) == self@.visible(),
            r@.len() < usize::MAX,
    {
        proof {
            lemma_shown_paths(self@.all_files, self@.show_hidden);
            lemma_shown_paths(changed_paths(self@.files), self@.show_hidden);
        }
        let r = match self.file_list_mode {
            FileListMode::All => filter_paths(self.all_files.as_slice(), self.show_hidden),
            FileListMode::Changes => filter_paths(
                paths_of(self.files.as_slice()).as_slice(),
                self.show_hidden,
            ),
        };
        assert(texts(r@).len() == r@.len());
        r
    }

    pub fn visible_file_count(&self) -> (n: usize)
        requires
            self.wf(),
        ensures
            n == self@.visible().len(),
            n < usize::MAX,
    {
        let v = self.visible_files();
        assert(texts(v@).len() == v@.len());
        v.len()
    }

    pub fn visible_path(&self, index: usize) -> (r: Option<String>)
        requires
            self.wf(),
        ensures
            r is Some <==> index < self@.visible().len(),
            r matches Some(p) ==> p@ == self@.visible()[index as int],
    {
        let v = self.visible_files();
        if index < v.len() {
            assert(texts(v@)[index as int] == v@[index as int]@);
            Some(v[index].clone())
        } else {
            assert(texts(v@).len() == v@.len());
            None
        }
    }

    pub fn visible_position(&self, path: &str) -> (r: Option<usize>)
        requires
            self.wf(),
        ensures
            match r {
                Some(i) => place_of(self@.visible(), path@, 0) == Some(i as int) && i
                    < self@.visible().len() && i < usize::MAX,
                None => place_of(self@.visible(), path@, 0) is None,
            },
    {
        let v = self.visible_files();
        position_of(v.as_slice(), path)
    }

    /// Number of rows in the list (the project root and one per visible file).
    pub fn row_count(&self) -> (n: usize)
        requires
            self.wf(),
        ensures
            n == self@.visible().len() + 1,
    {
        self.visible_file_count() + 1
    }

    /// Path of the currently selected file (none for the project root).
    pub fn selected_path(&self) -> (r: Option<String>)
        requires
            self.wf(),
        ensures
            text_in(r) == self@.selected_file(),
    {
        match self.selected {
            Some(i) => if i == 0 {
                None
            } else {
                self.visible_path(i - 1)
            },
            None => None,
        }
    }

    /// Selects a row of the list, or none.
    pub fn select(&mut self, row: Option<usize>)
        requires
            old(self).wf(),
        ensures
            final(self)@ == old(self)@.selecting(row),
            final(self).wf(),
    {
        self.selected = row;
        if row.is_none() {
            self.offset = 0;
        }
    }

    /// Selects the row of `path`, or that of the project root.
    pub fn select_path(&mut self, path: &Option<String>)
        requires
            old(self).wf(),
        ensures
            final(self)@ == old(self)@.selecting_path(text_in(*path)),
            final(self).wf(),
    {
        let row = match path {
            Some(p) => match self.visible_position(p.as_str()) {
                Some(i) => i + 1,
                None => 0,
            },
            None => 0,
        };
        self.select(Some(row));
    }

    /// Resets cursor and input when the previewed file changes. Files that
    /// already carry notes open straight into the annotate view so the notes are
    /// visible next to their locations; everything else opens in the diff view.
    fn reset_annotate_for_view(&mut self)
        requires
            (AppModel { annotate: false, cursor: None, ..old(self)@ }).wf(),
            old(self).notes.wf(),
        ensures
            final(self)@ == old(self)@.reset(),
            final(self).wf(),
    {
        self.cursor = None;
        self.input = None;
        self.annotate = false;
        let mut first: Option<usize> = None;
        if let Subject::File { path, line } = &self.view {
            if let Some(ns) = self.notes.get(path.as_str()) {
                if ns.len() > 0 {
                    assert(crate::notes::models(ns@).len() == ns@.len());
                    first = Some(
                        match *line {
                            Some(l) => if l >= 1 {
                                l
                            } else {
                                1
                            },
                            None => 1,
                        },
                    );
                } else {
                    assert(crate::notes::models(ns@).len() == 0);
                }
            }
        }
        if let Some(line) = first {
            self.annotate = true;
            self.cursor = Some(CursorState { line, col: 0, anchor: None, kind: SelKind::Char });
        }
    }

    /// Shows `subject` from its top.
    fn show(&mut self, subject: Subject)
        requires
            old(self).wf(),
        ensures
            final(self)@ == old(self)@.viewing(subject@),
            final(self).wf(),
    {
        self.view = subject;
        self.scroll = 0;
        self.needs_render = true;
        self.reset_annotate_for_view();
    }

    /// Sets the view from the current list selection and resets scroll.
    pub fn sync_view_from_list(&mut self)
        requires
            old(self).wf(),
        ensures
            final(self)@ == old(self)@.viewing_selected(),
            final(self).wf(),
    {
        let subject = match self.selected_path() {
            Some(path) => Subject::File { path, line: None },
            None => Subject::Home,
        };
        self.show(subject);
    }

    pub fn select_next(&mut self)
        requires
            old(self).wf(),
        ensures
            final(self)@ == old(self)@.next_selected(),
            final(self).wf(),
    {
        let n = self.visible_file_count();
        let cur = match self.selected {
            Some(i) => i,
            None => 0,
        };
        self.select(
            Some(
                if cur < n {
                    cur + 1
                } else {
                    n
                },
            ),
        );
        self.sync_view_from_list();
    }

    pub fn select_prev(&mut self)
        requires
            old(self).wf(),
        ensures
            final(self)@ == old(self)@.previous_selected(),
            final(self).wf(),
    {
        let cur = match self.selected {
            Some(i) => i,
            None => 0,
        };
        self.select(
            Some(
                if cur > 0 {
                    cur - 1
                } else {
                    0
                },
            ),
        );
        self.sync_view_from_list();
    }

    /// Points the view at an arbitrary file (from yazi, fzf or a search).
    pub fn open_path(&mut self, path: String, line: Option<usize>)
        requires
            old(self).wf(),
        ensures
            final(self)@ == old(self)@.opening(path@, line),
            final(self).wf(),
    {
        let row = match self.visible_position(path.as_str()) {
            Some(i) => Some(i + 1),
            None => None,
        };
        self.select(row);
        self.show(Subject::File { path, line });
    }
}

// ---- The preview -------------------------------------------------------------

/// The last hunk that starts at or before line `l` of its file.
pub open spec fn mark_for_line(marks: Seq<MarkModel>, l: usize) -> Option<MarkModel>
    decreases marks.len(),
{
    if marks.len() == 0 {
        None
    } else if marks.last().line <= l {
        Some(marks.last())
    } else {
        mark_for_line(marks.drop_last(), l)
    }
}

/// The last hunk at or above the row `row` of the preview.
pub open spec fn mark_at(marks: Seq<MarkModel>, row: int) -> Option<MarkModel>
    decreases marks.len(),
{
    if marks.len() == 0 {
        None
    } else if marks.last().offset <= row {
        Some(marks.last())
    } else {
        mark_at(marks.drop_last(), row)
    }
}

/// The first hunk below the row `row` of the preview.
pub open spec fn mark_below(marks: Seq<MarkModel>, row: int) -> Option<MarkModel>
    decreases marks.len(),
{
    if marks.len() == 0 {
        None
    } else if marks[0].offset > row {
        Some(marks[0])
    } else {
        mark_below(marks.skip(1), row)
    }
}

/// The mark, or the first of all if there is none.
pub open spec fn mark_or_first(mark: Option<MarkModel>, marks: Seq<MarkModel>) -> Option<MarkModel> {
    if mark is Some {
        mark
    } else if marks.len() > 0 {
        Some(marks[0])
    } else {
        None
    }
}

/// What the preview is made from.
#[derive(Clone, Copy, Debug, PartialEq, Eq, Structural)]
pub enum PreviewSource {
    /// The diff of the whole project.
    ProjectDiff,
    /// The diff of a tracked file.
    FileDiff,
    /// The diff of an untracked file: all of it is new.
    UntrackedDiff,
    /// The content of a file.
    Content,
}

impl PreviewSource {
    /// Whether the preview shows a diff.
    pub fn is_diff(&self) -> (r: bool)
        ensures
            r == !(*self is Content),
    {
        match self {
            PreviewSource::Content => false,
            _ => true,
        }
    }
}

/// What the preview is made from. A tracked file is shown as a diff if it has
/// one, an untracked file as a new-file diff if it is there, and everything else
/// by its content. `has_diff` is what was found of a tracked file, if anything
/// could be found.
pub fn preview_source(view: &Subject, is_tracked: bool, has_diff: Option<bool>, is_file: bool) -> (r:
    PreviewSource)
    ensures
        r == (match view@ {
            SubjectModel::Home => PreviewSource::ProjectDiff,
            SubjectModel::File(_, _) => if is_tracked {
                if has_diff == Some(true) { PreviewSource::FileDiff } else { PreviewSource::Content }
            } else if is_file {
                PreviewSource::UntrackedDiff
            } else {
                PreviewSource::Content
            },
        }),
{
    match view {
        Subject::Home => PreviewSource::ProjectDiff,
        Subject::File { .. } => if is_tracked {
            match has_diff {
                Some(true) => PreviewSource::FileDiff,
                _ => PreviewSource::Content,
            }
        } else if is_file {
            PreviewSource::UntrackedDiff
        } else {
            PreviewSource::Content
        },
    }
}

/// What the preview is to show.
#[derive(Debug)]
pub enum PreviewRequest {
    /// The annotate view of a file.
    Annotated { path: String },
    /// The diff or the content of a file.
    File { path: String },
    /// The diff of the whole project.
    Project,
}

/// What the preview is to show.
pub enum RequestModel {
    Annotated(Seq<char>),
    File(Seq<char>),
    Project,
}

impl View for PreviewRequest {
    type V = RequestModel;

    open spec fn view(&self) -> RequestModel {
        match *self {
            PreviewRequest::Annotated { path } => RequestModel::Annotated(path@),
            PreviewRequest::File { path } => RequestModel::File(path@),
            PreviewRequest::Project => RequestModel::Project,
        }
    }
}

/// The narrowest that a preview is rendered for.
pub const MIN_RENDER_WIDTH: u16 = 20;

impl AppModel {
    /// What the preview is to show. The annotate view has a renderer of its own, so
    /// that cursor and notes map to the lines of the file.
    pub open spec fn requested(self) -> RequestModel {
        match self.view {
            SubjectModel::File(path, _) => if self.annotate {
                RequestModel::Annotated(path)
            } else {
                RequestModel::File(path)
            },
            SubjectModel::Home => RequestModel::Project,
        }
    }

    /// With the preview scrolled no further than to its last screenful.
    pub open spec fn clamped(self) -> AppModel {
        AppModel {
            scroll: least(
                self.scroll as int,
                left_of(
                    truncated(self.preview.len() as int),
                    greatest(self.preview_height as int, 1),
                ),
            ) as u16,
            ..self
        }
    }

    /// With the preview scrolled to the row `row`.
    pub open spec fn scrolled_to(self, row: u16) -> AppModel {
        (AppModel { scroll: row, ..self }).clamped()
    }

    /// With the preview scrolled down by `delta` rows, or up.
    pub open spec fn scrolled_by(self, delta: int) -> AppModel {
        self.scrolled_to(truncated(greatest(self.scroll + delta, 0)) as u16)
    }

    /// The row of the preview that shows line `l` of the file: that of the
    /// enclosing hunk in a diff, the line's own in plain content.
    pub open spec fn row_of_line(self, l: usize) -> u16 {
        if self.hunks.len() == 0 {
            least(left_of(l as int, 1), u16::MAX as int) as u16
        } else {
            mark_or_first(mark_for_line(self.hunks, l), self.hunks).unwrap().offset
        }
    }

    /// Whether diffs are laid out in two columns.
    pub open spec fn is_side_by_side(self) -> bool {
        match self.diff_mode {
            DiffMode::Stacked => false,
            DiffMode::SideBySide => true,
            DiffMode::Auto => self.preview_width >= AUTO_SIDE_BY_SIDE_WIDTH,
        }
    }

    /// With the preview showing `lines`, scrolled to the line of the view.
    pub open spec fn previewing(self, lines: Seq<Seq<SpanModel>>, is_diff: bool) -> AppModel {
        let shown = AppModel {
            preview: lines,
            hunks: if is_diff { marks_of(lines) } else { Seq::empty() },
            ..self
        };
        match self.view {
            SubjectModel::File(_, Some(l)) => shown.scrolled_to(shown.row_of_line(l)),
            _ => shown.clamped(),
        }
    }

    /// The hunk at or above the top of the preview, or the first one.
    pub open spec fn current_mark(self) -> Option<MarkModel> {
        mark_or_first(mark_at(self.hunks, self.scroll as int), self.hunks)
    }

    /// With the preview scrolled to the next hunk, or to the previous one.
    pub open spec fn jumped(self, forward: bool) -> AppModel {
        if self.hunks.len() == 0 {
            self.saying("No hunks here."@)
        } else {
            match if forward {
                mark_below(self.hunks, self.scroll as int)
            } else {
                mark_at(self.hunks, self.scroll - 1)
            } {
                Some(m) => self.scrolled_to(m.offset),
                None => self,
            }
        }
    }

    /// The file and the line that the current hunk is in.
    pub open spec fn edited(self) -> Option<(Seq<char>, Option<usize>)> {
        let line = match self.current_mark() {
            Some(m) => Some(m.line),
            None => None,
        };
        match self.view {
            SubjectModel::File(path, _) => Some((path, line)),
            SubjectModel::Home => match self.current_mark() {
                Some(m) => match m.path {
                    Some(path) => Some((path, line)),
                    None => None,
                },
                None => None,
            },
        }
    }

    /// With the file of the current hunk opened.
    pub open spec fn hunk_opened(self) -> AppModel {
        match self.edited() {
            Some((path, line)) => self.opening(path, line),
            None => self.saying("No hunk selected."@),
        }
    }
}

fn find_for_line(marks: &[HunkMark], l: usize) -> (r: Option<u16>)
    ensures
        match mark_for_line(mark_models(marks@), l) {
            Some(m) => r == Some(m.offset),
            None => r is None,
        },
{
    let mut i = marks.len();
    assert(mark_models(marks@).take(i as int) =~= mark_models(marks@));
    while i > 0
        invariant
            i <= marks@.len(),
            mark_for_line(mark_models(marks@), l) == mark_for_line(mark_models(marks@).take(i as int), l),
        decreases i,
    {
        assert(mark_models(marks@).take(i as int).drop_last() =~= mark_models(marks@).take(i - 1));
        assert(mark_models(marks@).take(i as int).last() == marks@[i - 1]@);
        if marks[i - 1].line <= l {
            return Some(marks[i - 1].offset);
        }
        i -= 1;
    }
    None
}

fn find_at(marks: &[HunkMark], row: u16) -> (r: Option<usize>)
    ensures
        match r {
            Some(i) => i < marks@.len() && mark_at(mark_models(marks@), row as int) == Some(marks@[i as int]@),
            None => mark_at(mark_models(marks@), row as int) is None,
        },
{
    let mut i = marks.len();
    assert(mark_models(marks@).take(i as int) =~= mark_models(marks@));
    while i > 0
        invariant
            i <= marks@.len(),
            mark_at(mark_models(marks@), row as int) == mark_at(
                mark_models(marks@).take(i as int),
                row as int,
            ),
        decreases i,
    {
        assert(mark_models(marks@).take(i as int).drop_last() =~= mark_models(marks@).take(i - 1));
        assert(mark_models(marks@).take(i as int).last() == marks@[i - 1]@);
        if marks[i - 1].offset <= row {
            return Some(i - 1);
        }
        i -= 1;
    }
    None
}

fn find_below(marks: &[HunkMark], row: u16) -> (r: Option<u16>)
    ensures
        match mark_below(mark_models(marks@), row as int) {
            Some(m) => r == Some(m.offset),
            None => r is None,
        },
{
    let mut i: usize = 0;
    assert(mark_models(marks@).skip(0) =~= mark_models(marks@));
    while i < marks.len()
        invariant
            i <= marks@.len(),
            mark_below(mark_models(marks@), row as int) == mark_below(
                mark_models(marks@).skip(i as int),
                row as int,
            ),
        decreases marks@.len() - i,
    {
        assert(mark_models(marks@).skip(i as int).skip(1) =~= mark_models(marks@).skip(i + 1));
        assert(mark_models(marks@).skip(i as int)[0] == marks@[i as int]@);
        if marks[i].offset > row {
            return Some(marks[i].offset);
        }
        i += 1;
    }
    None
}

proof fn lemma_no_mark_below_zero(marks: Seq<MarkModel>)
    ensures
        mark_at(marks, -1) is None,
    decreases marks.len(),
{
    if marks.len() > 0 {
        lemma_no_mark_below_zero(marks.drop_last());
    }
}

impl App {
    /// What the preview is to show.
    pub fn preview_request(&self) -> (r: PreviewRequest)
        ensures
            r@ == self@.requested(),
    {
        match &self.view {
            Subject::File { path, .. } => if self.annotate {
                PreviewRequest::Annotated { path: path.clone() }
            } else {
                PreviewRequest::File { path: path.clone() }
            },
            Subject::Home => PreviewRequest::Project,
        }
    }

    /// How many milliseconds to wait for an event before everything is read anew.
    /// `None` to wait for as long as it takes.
    pub fn wait(&self) -> (r: Option<u64>)
        ensures
            r == (if self@.auto_refresh { Some(TICK) } else { None }),
    {
        if self.auto_refresh {
            Some(TICK)
        } else {
            None
        }
    }

    /// The width that the preview is rendered for.
    pub fn render_width(&self) -> (r: u16)
        ensures
            r == greatest(self@.preview_width as int, MIN_RENDER_WIDTH as int),
    {
        if self.preview_width <= MIN_RENDER_WIDTH {
            MIN_RENDER_WIDTH
        } else {
            self.preview_width
        }
    }

    /// Whether the current diff mode and width resolve to side-by-side.
    pub fn side_by_side(&self) -> (r: bool)
        ensures
            r == self@.is_side_by_side(),
    {
        match self.diff_mode {
            DiffMode::Stacked => false,
            DiffMode::SideBySide => true,
            DiffMode::Auto => self.preview_width >= AUTO_SIDE_BY_SIDE_WIDTH,
        }
    }

    pub fn clamp_scroll(&mut self)
        requires
            old(self).wf(),
        ensures
            final(self)@ == old(self)@.clamped(),
            final(self).wf(),
    {
        let total = truncate_u16(self.preview.len());
        let height = if self.preview_height >= 1 {
            self.preview_height
        } else {
            1
        };
        let max = if height < total {
            total - height
        } else {
            0
        };
        if self.scroll > max {
            self.scroll = max;
        }
    }

    /// Scrolls the preview to the row `row`, or as far as there is something to
    /// show.
    pub fn scroll_to(&mut self, row: u16)
        requires
            old(self).wf(),
        ensures
            final(self)@ == old(self)@.scrolled_to(row),
            final(self).wf(),
    {
        self.scroll = row;
        self.clamp_scroll();
    }

    pub fn scroll_preview(&mut self, delta: i32)
        requires
            old(self).wf(),
        ensures
            final(self)@ == old(self)@.scrolled_by(delta as int),
            final(self).wf(),
    {
        let new = self.scroll as i64 + delta as i64;
        let row = if new > 0 {
            (new % 0x1_0000) as u16
        } else {
            0
        };
        self.scroll_to(row);
    }

    /// Scrolls so that new-file line `l` is at the top. In a diff we align to the
    /// enclosing hunk; in plain content, bat's gutter line numbers match.
    pub fn scroll_to_line(&mut self, l: usize)
        requires
            old(self).wf(),
        ensures
            final(self)@ == old(self)@.scrolled_to(old(self)@.row_of_line(l)),
            final(self).wf(),
    {
        let row = if self.hunks.len() == 0 {
            if l == 0 {
                0
            } else if l - 1 < 65535 {
                (l - 1) as u16
            } else {
                65535
            }
        } else {
            assert(mark_models(self.hunks@)[0] == self.hunks@[0]@);
            match find_for_line(self.hunks.as_slice(), l) {
                Some(offset) => offset,
                None => self.hunks[0].offset,
            }
        };
        self.scroll_to(row);
    }

    /// Shows a rendered preview: `lines`, which are a diff or not, scrolled to the
    /// line that the view asks for.
    pub fn show_preview(&mut self, lines: Vec<Line>, is_diff: bool)
        requires
            old(self).wf(),
        ensures
            final(self)@ == old(self)@.previewing(line_models(lines@), is_diff),
            final(self).wf(),
    {
        let hunks = if is_diff {
            analyze_hunks(lines.as_slice())
        } else {
            Vec::new()
        };
        assert(!is_diff ==> mark_models(hunks@) =~= Seq::empty());
        let target = match &self.view {
            Subject::File { line, .. } => *line,
            Subject::Home => None,
        };
        self.preview = lines;
        self.hunks = hunks;
        match target {
            Some(l) => self.scroll_to_line(l),
            None => self.clamp_scroll(),
        }
    }

    /// The hunk at or above the top of the preview (the "current" hunk).
    pub fn current_hunk(&self) -> (r: Option<&HunkMark>)
        ensures
            match r {
                Some(h) => self@.current_mark() == Some(h@),
                None => self@.current_mark() is None,
            },
    {
        match find_at(self.hunks.as_slice(), self.scroll) {
            Some(i) => Some(&self.hunks[i]),
            None => if self.hunks.len() > 0 {
                assert(mark_models(self.hunks@)[0] == self.hunks@[0]@);
                Some(&self.hunks[0])
            } else {
                None
            },
        }
    }

    /// Scrolls to the previous (`dir < 0`) or next (`dir > 0`) hunk.
    pub fn jump_hunk(&mut self, dir: i32)
        requires
            old(self).wf(),
        ensures
            final(self)@ == old(self)@.jumped(dir > 0),
            final(self).wf(),
    {
        if self.hunks.len() == 0 {
            self.message = "No hunks here.".to_string();
            return;
        }
        let target = if dir > 0 {
            find_below(self.hunks.as_slice(), self.scroll)
        } else if self.scroll == 0 {
            proof {
                lemma_no_mark_below_zero(self@.hunks);
            }
            None
        } else {
            match find_at(self.hunks.as_slice(), self.scroll - 1) {
                Some(i) => Some(self.hunks[i].offset),
                None => None,
            }
        };
        if let Some(offset) = target {
            self.scroll_to(offset);
        }
    }

    /// Resolves which file and line `e` should open, based on the view and the
    /// hunk nearest the top of the preview.
    pub fn editor_target(&self) -> (r: Option<(String, Option<usize>)>)
        ensures
            match r {
                Some((path, line)) => self@.edited() == Some((path@, line)),
                None => self@.edited() is None,
            },
    {
        let mark = self.current_hunk();
        let line = match mark {
            Some(m) => Some(m.line),
            None => None,
        };
        match &self.view {
            Subject::File { path, .. } => Some((path.clone(), line)),
            Subject::Home => match mark {
                Some(m) => match &m.path {
                    Some(path) => Some((path.clone(), line)),
                    None => None,
                },
                None => None,
            },
        }
    }

    /// Opens the current hunk's file in the preview (its own diff view, scrolled
    /// to the hunk). Handy from the diff of the whole project.
    pub fn open_current_hunk(&mut self)
        requires
            old(self).wf(),
        ensures
            final(self)@ == old(self)@.hunk_opened(),
            final(self).wf(),
    {
        match self.editor_target() {
            Some((path, line)) => self.open_path(path, line),
            None => {
                self.message = "No hunk selected.".to_string();
            },
        }
    }
}

}

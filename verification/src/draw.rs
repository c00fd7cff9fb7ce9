//! What is drawn: the file list, the titles, the footer, the help and the box for
//! a note.

use crate::app::{mark_at, App, AppModel, FileListMode, Focus, Subject, SubjectModel};
use crate::git::{byte_at, marker_of, status_models, ChangedFile, StatusModel};
use crate::hunks::MarkModel;
use crate::input::{row_col, rows, InputModel, InputState};
use crate::notes::models;
use crate::number::{decimal, padded_left, push_decimal, push_repeated};
use crate::render::raw_line;
use crate::screen::{
    centered, centered_rect, greatest, least, left_of, truncate_u16, truncated, Rect,
};
use crate::style::{
    in_color, line_models, line_text, line_text_adds_up, modified, plain, raw, styled, BOLD, Color, Line,
    REVERSED, Span, SpanModel, Style,
};
use crate::text::{chars_of, pieces, push_text, same_text, slices, split, string_of, texts};
use vstd::prelude::*;
use vstd::slice::slice_subrange;

verus! {

// ---- The file list -----------------------------------------------------------

/// The title of the list: which files it shows, and how many.
pub open spec fn list_title_of(mode: FileListMode, count: nat) -> Seq<char> {
    " "@ + mode.name() + " ("@ + decimal(count) + ") "@
}

/// How wide the badge with the number of notes is: nothing where there are none.
pub open spec fn badge_width(count: nat) -> nat {
    if count == 0 { 0 } else { 3 + decimal(count).len() }
}

impl AppModel {
    /// The width of the row of a file: a marker, a space, the path and the badge.
    pub open spec fn row_width(self, path: Seq<char>) -> nat {
        2 + path.len() + badge_width(self.notes_of(path).len())
    }

    /// The width of the widest of the first `k` rows of files, of the row of the
    /// project root and of the title.
    pub open spec fn widest(self, k: int) -> int
        decreases k,
    {
        if k <= 0 {
            greatest(
                "● PROJECT-ROOT"@.len() as int,
                list_title_of(self.file_list_mode, self.visible().len()).len() as int,
            )
        } else {
            greatest(self.widest(k - 1), self.row_width(self.visible()[k - 1]) as int)
        }
    }

    /// The width of the left panel: as wide as its widest row, with the highlight
    /// symbol, the borders and a column of padding, but not so wide that the preview
    /// has no room.
    pub open spec fn left_width(self, total: u16) -> int {
        least(
            greatest(truncated(self.widest(self.visible().len() as int)) + 5, 18),
            greatest(left_of(total as int, 24), 24),
        )
    }
}

impl App {
    /// The title of the file list.
    pub fn list_title(&self) -> (r: String)
        requires
            self.wf(),
        ensures
            r@ == list_title_of(self@.file_list_mode, self@.visible().len()),
    {
        let mut r = " ".to_string();
        push_text(&mut r, self.file_list_mode.label().as_str());
        push_text(&mut r, " (");
        push_decimal(&mut r, self.visible_file_count() as u128);
        push_text(&mut r, ") ");
        r
    }
}

impl App {
    /// How many notes a file has.
    fn note_count(&self, path: &str) -> (n: usize)
        requires
            self.wf(),
        ensures
            n == self@.notes_of(path@).len(),
    {
        match self.notes.get(path) {
            Some(ns) => {
                assert(models(ns@).len() == ns@.len());
                ns.len()
            },
            None => 0,
        }
    }

    /// Left-panel width just wide enough for the longest row (clamped so the
    /// preview keeps a usable width).
    pub fn desired_left_width(&self, total: u16) -> (r: u16)
        requires
            self.wf(),
        ensures
            r == self@.left_width(total),
    {
        let visible = self.visible_files();
        let ghost paths = self@.visible();
        assert(paths.len() == visible@.len());
        let label = chars_of("● PROJECT-ROOT").len();
        let title = chars_of(self.list_title().as_str()).len();
        let mut content: u128 = if label <= title {
            title as u128
        } else {
            label as u128
        };
        let mut i: usize = 0;
        while i < visible.len()
            invariant
                self.wf(),
                texts(visible@) == paths,
                paths == self@.visible(),
                i <= visible@.len(),
                content == self@.widest(i as int),
            decreases visible@.len() - i,
        {
            assert(paths[i as int] == visible@[i as int]@);
            let path = visible[i].as_str();
            let count = self.note_count(path);
            let badge: u128 = if count == 0 {
                0
            } else {
                let mut digits = String::new();
                push_decimal(&mut digits, count as u128);
                assert(digits@ =~= decimal(count as nat));
                3 + chars_of(digits.as_str()).len() as u128
            };
            let width: u128 = 2 + chars_of(path).len() as u128 + badge;
            if content < width {
                content = width;
            }
            i += 1;
        }
        let want = (content % 0x1_0000) as u32 + 5;
        let max = if total > 48 {
            (total - 24) as u32
        } else {
            24
        };
        if want < 18 {
            18
        } else if want > max {
            max as u16
        } else {
            want as u16
        }
    }
}

/// The color of a marker.
pub open spec fn marker_color(marker: char) -> Color {
    if marker == 'A' || marker == '?' {
        Color::Green
    } else if marker == 'D' {
        Color::Red
    } else if marker == 'M' {
        Color::Yellow
    } else if marker == 'R' {
        Color::Magenta
    } else {
        Color::Gray
    }
}

fn color_of_marker(marker: char) -> (r: Color)
    ensures
        r == marker_color(marker),
{
    if marker == 'A' || marker == '?' {
        Color::Green
    } else if marker == 'D' {
        Color::Red
    } else if marker == 'M' {
        Color::Yellow
    } else if marker == 'R' {
        Color::Magenta
    } else {
        Color::Gray
    }
}

/// The marker for a status.
pub open spec fn status_marker(status: Seq<char>) -> char {
    marker_of(
        byte_at(vstd::utf8::encode_utf8(status), 0),
        byte_at(vstd::utf8::encode_utf8(status), 1),
    )
}

/// The marker of the file `path`: by the first entry for it, a blank if it has
/// not changed.
pub open spec fn marker_for(files: Seq<StatusModel>, path: Seq<char>) -> char
    decreases files.len(),
{
    if files.len() == 0 {
        ' '
    } else if files[0].path == path {
        status_marker(files[0].status)
    } else {
        marker_for(files.skip(1), path)
    }
}

/// The row of the project root.
pub open spec fn root_row() -> Seq<SpanModel> {
    seq![styled("● "@, in_color(Color::Cyan)), styled("PROJECT-ROOT"@, modified(BOLD))]
}

/// The row of a file: its marker, its path and, if it has notes, how many.
pub open spec fn file_row(marker: char, path: Seq<char>, notes: nat) -> Seq<SpanModel> {
    let row = seq![styled(seq![marker, ' '], in_color(marker_color(marker))), raw(path)];
    if notes == 0 {
        row
    } else {
        row.push(styled("  ✎"@ + decimal(notes), in_color(Color::Cyan)))
    }
}

impl AppModel {
    /// The rows of the file list.
    pub open spec fn list_rows(self) -> Seq<Seq<SpanModel>> {
        seq![root_row()] + self.visible().map_values(
            |p: Seq<char>| file_row(marker_for(self.files, p), p, self.notes_of(p).len()),
        )
    }

    /// The style of the border of a panel: highlighted if it has the focus.
    pub open spec fn border(self, panel: Focus) -> Style {
        in_color(if self.focus == panel { Color::Cyan } else { Color::DarkGray })
    }
}

fn find_marker(files: &[ChangedFile], path: &str) -> (r: char)
    ensures
        r == marker_for(status_models(files@), path@),
{
    let ghost all = status_models(files@);
    let mut i: usize = 0;
    assert(all.skip(0) =~= all);
    while i < files.len()
        invariant
            i <= files@.len(),
            all == status_models(files@),
            marker_for(all, path@) == marker_for(all.skip(i as int), path@),
        decreases files@.len() - i,
    {
        assert(all.skip(i as int)[0] == files@[i as int]@);
        assert(all.skip(i as int).skip(1) =~= all.skip(i + 1));
        if same_text(files[i].path.as_str(), path) {
            return files[i].marker();
        }
        i += 1;
    }
    ' '
}

fn draw_file_row(marker: char, path: &str, notes: usize) -> (r: Line)
    ensures
        r@ == file_row(marker, path@, notes as nat),
{
    let mut first = String::new();
    first.push(marker);
    first.push(' ');
    assert(first@ =~= seq![marker, ' ']);
    let mut row = Line::of(Span::styled(first, Style::fg(color_of_marker(marker))));
    row.push(Span::raw(path.to_string()));
    if notes > 0 {
        let mut badge = "  ✎".to_string();
        push_decimal(&mut badge, notes as u128);
        row.push(Span::styled(badge, Style::fg(Color::Cyan)));
    }
    assert(row@ =~= file_row(marker, path@, notes as nat));
    row
}

impl App {
    /// The rows of the file list: the project root, then the files with their
    /// markers and their notes.
    pub fn draw_list(&self) -> (rows: Vec<Line>)
        requires
            self.wf(),
        ensures
            line_models(rows@) == self@.list_rows(),
    {
        let visible = self.visible_files();
        let ghost paths = self@.visible();
        assert(paths.len() == visible@.len());
        let mut root = Line::of(Span::styled("● ".to_string(), Style::fg(Color::Cyan)));
        root.push(Span::styled("PROJECT-ROOT".to_string(), Style::modifier(BOLD)));
        assert(root@ =~= root_row());
        let mut rows: Vec<Line> = Vec::new();
        rows.push(root);
        let mut i: usize = 0;
        let ghost want = self@.list_rows();
        while i < visible.len()
            invariant
                self.wf(),
                texts(visible@) == paths,
                paths == self@.visible(),
                want == self@.list_rows(),
                want.len() == paths.len() + 1,
                i <= visible@.len(),
                rows@.len() == i + 1,
                forall|j: int| 0 <= j <= i ==> (#[trigger] rows@[j])@ == want[j],
            decreases visible@.len() - i,
        {
            assert(paths[i as int] == visible@[i as int]@);
            let path = visible[i].as_str();
            let marker = find_marker(self.files.as_slice(), path);
            let row = draw_file_row(marker, path, self.note_count(path));
            assert(row@ == want[i + 1]);
            rows.push(row);
            i += 1;
        }
        assert(line_models(rows@) =~= want);
        rows
    }

    /// Border color for a panel, highlighted when it holds focus.
    pub fn border_style(&self, panel: Focus) -> (r: Style)
        ensures
            r == self@.border(panel),
    {
        if self.focus == panel {
            Style::fg(Color::Cyan)
        } else {
            Style::fg(Color::DarkGray)
        }
    }
}

// ---- The preview -------------------------------------------------------------

impl AppModel {
    /// The title of the preview: the file, or that of the current hunk.
    pub open spec fn preview_title(self) -> Seq<char> {
        match self.view {
            SubjectModel::File(path, _) => " "@ + path + " "@,
            SubjectModel::Home => match self.current_mark() {
                Some(m) if m.path is Some => " PROJECT-ROOT · "@ + m.path.unwrap() + " "@,
                _ => " PROJECT-ROOT · project-wide diff "@,
            },
        }
    }

    /// The line below the preview: its length, and the cursor or the settings.
    pub open spec fn preview_bottom(self) -> Seq<char> {
        let total = " "@ + decimal(self.preview.len()) + "L · "@;
        if self.annotate {
            match self.cursor {
                Some(c) => total + "annotate · "@ + decimal(c.line as nat) + ":"@ + decimal(c.col as nat)
                    + " "@,
                None => total + "annotate "@,
            }
        } else {
            total + "diff: "@ + self.diff_mode.name() + (if self.wrap { " · wrap"@ } else { ""@ }) + (
            if self.auto_refresh { " · auto"@ } else { ""@ }) + " "@
        }
    }
}

impl App {
    /// The title of the preview. It keeps the current hunk's file visible while
    /// looping hunks.
    pub fn draw_preview_title(&self) -> (r: String)
        requires
            self.wf(),
        ensures
            r@ == self@.preview_title(),
    {
        let mut r = " ".to_string();
        match &self.view {
            Subject::File { path, .. } => {
                push_text(&mut r, path.as_str());
                push_text(&mut r, " ");
                r
            },
            Subject::Home => {
                if let Some(m) = self.current_hunk() {
                    if let Some(path) = &m.path {
                        let mut t = " PROJECT-ROOT · ".to_string();
                        push_text(&mut t, path.as_str());
                        push_text(&mut t, " ");
                        return t;
                    }
                }
                " PROJECT-ROOT · project-wide diff ".to_string()
            },
        }
    }

    /// The line below the preview.
    pub fn draw_preview_bottom(&self) -> (r: String)
        requires
            self.wf(),
        ensures
            r@ == self@.preview_bottom(),
    {
        let mut r = " ".to_string();
        push_decimal(&mut r, self.preview.len() as u128);
        push_text(&mut r, "L · ");
        if self.annotate {
            match &self.cursor {
                Some(c) => {
                    push_text(&mut r, "annotate · ");
                    push_decimal(&mut r, c.line as u128);
                    push_text(&mut r, ":");
                    push_decimal(&mut r, c.col as u128);
                    push_text(&mut r, " ");
                },
                None => {
                    push_text(&mut r, "annotate ");
                },
            }
        } else {
            push_text(&mut r, "diff: ");
            push_text(&mut r, self.diff_mode.label().as_str());
            push_text(
                &mut r,
                if self.wrap {
                    " · wrap"
                } else {
                    ""
                },
            );
            push_text(
                &mut r,
                if self.auto_refresh {
                    " · auto"
                } else {
                    ""
                },
            );
            push_text(&mut r, " ");
        }
        r
    }
}

// ---- The footer --------------------------------------------------------------

/// The keys, in short.
pub open spec fn short_help() -> Seq<char> {
    "? help · C files · . hidden · h/l focus · j/k move · [ ] hunk · ⏎ open · v/n annotate · e edit · ^Z bg · ^C ^C / ^D quit"@
}

/// The keys of the annotate view, in short.
pub open spec fn annotate_help() -> Seq<char> {
    "annotate · hjkl/wbe/{}[] move · / find · v/V select · y copy · c comment · d delete · n/Esc exit"@
}

impl AppModel {
    /// The footer: the search prompt, the message, or the keys in short.
    pub open spec fn footer(self) -> Seq<SpanModel> {
        let dim = in_color(Color::DarkGray);
        match self.find {
            Some(q) => seq![
                styled("/"@, Style { fg: Some(Color::Cyan), add: BOLD, ..plain() }),
                raw(q),
                styled("▏"@, in_color(Color::Cyan)),
                styled("   (⏎ next · Esc cancel)"@, dim),
            ],
            None => if self.message.len() > 0 {
                seq![styled(self.message, in_color(Color::Yellow))]
            } else if self.annotate {
                seq![styled(annotate_help(), dim)]
            } else {
                seq![styled(short_help(), dim)]
            },
        }
    }
}

impl App {
    /// The footer: the search prompt, the message, or the keys in short.
    pub fn draw_footer(&self) -> (r: Line)
        ensures
            r@ == self@.footer(),
    {
        let dim = Style::fg(Color::DarkGray);
        if let Some(q) = &self.find {
            let bold = Style {
                fg: Some(Color::Cyan),
                bg: None,
                underline: None,
                add: BOLD,
                sub: 0,
            };
            let mut line = Line::of(Span::styled("/".to_string(), bold));
            line.push(Span::raw(q.clone()));
            line.push(Span::styled("▏".to_string(), Style::fg(Color::Cyan)));
            line.push(Span::styled("   (⏎ next · Esc cancel)".to_string(), dim));
            assert(line@ =~= self@.footer());
            return line;
        }
        if !self.message.as_str().is_empty() {
            Line::of(Span::styled(self.message.clone(), Style::fg(Color::Yellow)))
        } else if self.annotate {
            Line::of(
                Span::styled(
                    "annotate · hjkl/wbe/{}[] move · / find · v/V select · y copy · c comment · d delete · n/Esc exit".to_string(),
                    dim,
                ),
            )
        } else {
            Line::of(
                Span::styled(
                    "? help · C files · . hidden · h/l focus · j/k move · [ ] hunk · ⏎ open · v/n annotate · e edit · ^Z bg · ^C ^C / ^D quit".to_string(),
                    dim,
                ),
            )
        }
    }
}

// ---- Overlays ----------------------------------------------------------------

/// A box over everything else.
#[derive(Debug)]
pub struct Overlay {
    pub title: String,
    pub lines: Vec<Line>,
    pub area: Rect,
}

/// A line of the help: a key and what it does.
pub open spec fn help_entry(key: Seq<char>, description: Seq<char>) -> Seq<SpanModel> {
    seq![
        styled(
            padded_left(key, 16, ' ') + "  "@,
            Style { fg: Some(Color::Cyan), add: BOLD, ..plain() },
        ),
        raw(description),
    ]
}

/// The lines of the help.
pub open spec fn help_text() -> Seq<Seq<SpanModel>> {
    seq![
        help_entry("h / l"@, "focus left / right panel"@),
        help_entry("j / k"@, "move selection (left) or scroll (right)"@),
        help_entry("g / G"@, "first/last item, or top/bottom of preview"@),
        help_entry("[ / ]"@, "previous / next hunk"@),
        help_entry("Enter"@, "open current hunk's file in sidecar"@),
        help_entry("PgUp/PgDn/Space"@, "page the preview"@),
        help_entry("H"@, "jump to PROJECT-ROOT (whole-project diff)"@),
        help_entry("C"@, "toggle all files / changes (all files by default)"@),
        help_entry("."@, "toggle hidden files (shown by default)"@),
        help_entry("S"@, "toggle the left (files) panel"@),
        help_entry("W"@, "toggle preview line wrapping"@),
        help_entry("1 / 2 / 3"@, "diff layout: stacked / side-by-side / auto"@),
        Seq::empty(),
        help_entry("n"@, "annotate the current file (cursor mode)"@),
        help_entry("v / V"@, "start char / line selection (also enters annotate)"@),
        help_entry("hjkl w b e 0 ^ $ g G"@, "move the annotate cursor (vim motions)"@),
        help_entry("{ } / [ ]"@, "prev/next paragraph / top-level section"@),
        help_entry("/ (in annotate)"@, "find text in the file (⏎ next match, wraps)"@),
        help_entry("mouse drag"@, "select text (and copy it)"@),
        help_entry("y"@, "copy the selection to the clipboard"@),
        help_entry("c"@, "comment on the selection, or edit the note under the cursor"@),
        help_entry("Ctrl+S / ⏎"@, "save the note / add a newline (notes are multi-line)"@),
        help_entry("d"@, "delete the note under the cursor"@),
        help_entry("Esc / n"@, "clear selection / leave annotate mode"@),
        help_entry("← → ↑ ↓ in a note"@, "move the text cursor while editing"@),
        Seq::empty(),
        help_entry("e"@, "open current file/hunk in $EDITOR"@),
        help_entry("z / y / f"@, "lazygit / yazi / fzf"@),
        help_entry("s"@, "fzf search repo (All) or changed files (Changes)"@),
        help_entry("/"@, "fzf search the current file"@),
        help_entry("r / R"@, "refresh now / toggle auto-refresh"@),
        help_entry("?"@, "toggle this help"@),
        help_entry("Ctrl+Z"@, "suspend sidecar to the background"@),
        help_entry("Ctrl+D / Ctrl+C Ctrl+C"@, "quit"@),
    ]
}

/// The area of the help on a screen: as large as its text, with borders, if there
/// is room.
pub open spec fn help_area(screen: Rect) -> Rect {
    centered(
        least(66, left_of(screen.width as int, 4)) as u16,
        least(help_text().len() as int + 2, left_of(screen.height as int, 2)) as u16,
        screen,
    )
}

fn push_entry(lines: &mut Vec<Line>, key: &str, description: &str)
    ensures
        line_models(final(lines)@) == line_models(old(lines)@).push(help_entry(key@, description@)),
{
    let size = chars_of(key).len();
    let mut text = String::new();
    if size < 16 {
        push_repeated(&mut text, ' ', 16 - size);
    }
    push_text(&mut text, key);
    push_text(&mut text, "  ");
    assert(text@ =~= padded_left(key@, 16, ' ') + "  "@);
    let bold = Style {
        fg: Some(Color::Cyan),
        bg: None,
        underline: None,
        add: BOLD,
        sub: 0,
    };
    let mut line = Line::of(Span::styled(text, bold));
    line.push(Span::raw(description.to_string()));
    assert(line@ =~= help_entry(key@, description@));
    lines.push(line);
    assert(line_models(lines@) =~= line_models(old(lines)@).push(line@));
}

fn push_gap(lines: &mut Vec<Line>)
    ensures
        line_models(final(lines)@) == line_models(old(lines)@).push(Seq::empty()),
{
    let line = Line::empty();
    lines.push(line);
    assert(line_models(lines@) =~= line_models(old(lines)@).push(line@));
}

/// The lines of the help.
fn help_lines() -> (lines: Vec<Line>)
    ensures
        line_models(lines@) == help_text(),
{
    let mut lines: Vec<Line> = Vec::new();
    assert(line_models(lines@) =~= Seq::empty());
    push_entry(&mut lines, "h / l", "focus left / right panel");
    push_entry(&mut lines, "j / k", "move selection (left) or scroll (right)");
    push_entry(&mut lines, "g / G", "first/last item, or top/bottom of preview");
    push_entry(&mut lines, "[ / ]", "previous / next hunk");
    push_entry(&mut lines, "Enter", "open current hunk's file in sidecar");
    push_entry(&mut lines, "PgUp/PgDn/Space", "page the preview");
    push_entry(&mut lines, "H", "jump to PROJECT-ROOT (whole-project diff)");
    push_entry(&mut lines, "C", "toggle all files / changes (all files by default)");
    push_entry(&mut lines, ".", "toggle hidden files (shown by default)");
    push_entry(&mut lines, "S", "toggle the left (files) panel");
    push_entry(&mut lines, "W", "toggle preview line wrapping");
    push_entry(&mut lines, "1 / 2 / 3", "diff layout: stacked / side-by-side / auto");
    push_gap(&mut lines);
    push_entry(&mut lines, "n", "annotate the current file (cursor mode)");
    push_entry(&mut lines, "v / V", "start char / line selection (also enters annotate)");
    push_entry(&mut lines, "hjkl w b e 0 ^ $ g G", "move the annotate cursor (vim motions)");
    push_entry(&mut lines, "{ } / [ ]", "prev/next paragraph / top-level section");
    push_entry(&mut lines, "/ (in annotate)", "find text in the file (⏎ next match, wraps)");
    push_entry(&mut lines, "mouse drag", "select text (and copy it)");
    push_entry(&mut lines, "y", "copy the selection to the clipboard");
    push_entry(&mut lines, "c", "comment on the selection, or edit the note under the cursor");
    push_entry(&mut lines, "Ctrl+S / ⏎", "save the note / add a newline (notes are multi-line)");
    push_entry(&mut lines, "d", "delete the note under the cursor");
    push_entry(&mut lines, "Esc / n", "clear selection / leave annotate mode");
    push_entry(&mut lines, "← → ↑ ↓ in a note", "move the text cursor while editing");
    push_gap(&mut lines);
    push_entry(&mut lines, "e", "open current file/hunk in $EDITOR");
    push_entry(&mut lines, "z / y / f", "lazygit / yazi / fzf");
    push_entry(&mut lines, "s", "fzf search repo (All) or changed files (Changes)");
    push_entry(&mut lines, "/", "fzf search the current file");
    push_entry(&mut lines, "r / R", "refresh now / toggle auto-refresh");
    push_entry(&mut lines, "?", "toggle this help");
    push_entry(&mut lines, "Ctrl+Z", "suspend sidecar to the background");
    push_entry(&mut lines, "Ctrl+D / Ctrl+C Ctrl+C", "quit");
    lines
}

/// Centered overlay listing every keybinding.
pub fn draw_help(screen: Rect, version: &str) -> (r: Overlay)
    requires
        screen.wf(),
    ensures
        r.title@ == " Keybindings · sidecar "@ + version@ + " "@,
        line_models(r.lines@) == help_text(),
        r.area == help_area(screen),
{
    let mut title = " Keybindings · sidecar ".to_string();
    push_text(&mut title, version);
    push_text(&mut title, " ");
    let width = if screen.width >= 70 {
        66
    } else if screen.width > 4 {
        screen.width - 4
    } else {
        0
    };
    let lines = help_lines();
    assert(line_models(lines@).len() == lines@.len());
    let want = lines.len() as u16 + 2;
    let room = if screen.height > 2 {
        screen.height - 2
    } else {
        0
    };
    let height = if want <= room {
        want
    } else {
        room
    };
    Overlay { title, lines, area: centered_rect(width, height, screen) }
}

/// Which lines a note is about.
pub open spec fn where_of(first: usize, last: usize) -> Seq<char> {
    if first == last {
        "line "@ + decimal(first as nat)
    } else {
        "lines "@ + decimal(first as nat) + "-"@ + decimal(last as nat)
    }
}

/// A row of a note that is typed in, with a block at the column of the insertion
/// point.
pub open spec fn row_with_cursor(part: Seq<char>, col: int) -> Seq<SpanModel> {
    if col < part.len() {
        seq![
            raw(part.take(col)),
            styled(seq![part[col]], modified(REVERSED)),
            raw(part.skip(col + 1)),
        ]
    } else {
        seq![raw(part), styled(" "@, modified(REVERSED)), raw(Seq::empty())]
    }
}

impl InputModel {
    /// The title of the box.
    pub open spec fn box_title(self) -> Seq<char> {
        " "@ + (if self.editing is Some { "Edit note"@ } else { "New note"@ }) + " · "@ + where_of(
            self.start.0,
            self.end.0,
        ) + " "@
    }

    /// The rows of the text, with a block at the insertion point.
    pub open spec fn box_rows(self) -> Seq<Seq<SpanModel>> {
        let (line, col) = row_col(self.buffer, self.cursor);
        Seq::new(
            rows(self.buffer).len(),
            |i: int|
                if i == line {
                    row_with_cursor(rows(self.buffer)[i], col)
                } else {
                    raw_line(rows(self.buffer)[i])
                },
        )
    }

    /// The lines of the box: the text, a gap and the keys.
    pub open spec fn box_lines(self) -> Seq<Seq<SpanModel>> {
        self.box_rows().push(Seq::empty()).push(
            seq![styled("⏎ newline · Ctrl+S save · Esc cancel"@, in_color(Color::DarkGray))],
        )
    }

    /// The area of the box on a screen: as high as its lines, with borders, if
    /// there is room.
    pub open spec fn box_area(self, screen: Rect) -> Rect {
        centered(
            least(72, left_of(screen.width as int, 4)) as u16,
            least(
                greatest(truncated(self.box_lines().len() as int) + 2, 5),
                left_of(screen.height as int, 2),
            ) as u16,
            screen,
        )
    }
}

fn draw_row_with_cursor(part: &[char], col: usize) -> (r: Line)
    ensures
        r@ == row_with_cursor(part@, col as int),
{
    let reversed = Style::modifier(REVERSED);
    if col < part.len() {
        let mut at = String::new();
        at.push(part[col]);
        assert(at@ =~= seq![part@[col as int]]);
        let mut row = Line::of(Span::raw(string_of(slice_subrange(part, 0, col))));
        row.push(Span::styled(at, reversed));
        row.push(Span::raw(string_of(slice_subrange(part, col + 1, part.len()))));
        assert(part@.subrange(0, col as int) =~= part@.take(col as int));
        assert(part@.subrange(col + 1, part@.len() as int) =~= part@.skip(col + 1));
        assert(row@ =~= row_with_cursor(part@, col as int));
        row
    } else {
        let rest = String::new();
        assert(rest@ =~= Seq::empty());
        let mut row = Line::of(Span::raw(string_of(part)));
        row.push(Span::styled(" ".to_string(), reversed));
        row.push(Span::raw(rest));
        assert(row@ =~= row_with_cursor(part@, col as int));
        row
    }
}

fn draw_raw_line(part: &[char]) -> (r: Line)
    ensures
        r@ == raw_line(part@),
{
    if part.len() == 0 {
        Line::empty()
    } else {
        Line::of(Span::raw(string_of(part)))
    }
}

/// The lines of the box for a note.
fn draw_box_lines(input: &InputState) -> (lines: Vec<Line>)
    requires
        input.wf(),
    ensures
        line_models(lines@) == input@.box_lines(),
{
    let (line, col) = input.line_col();
    let chars = chars_of(input.buffer.as_str());
    let parts = split(chars.as_slice(), '\n');
    let mut lines: Vec<Line> = Vec::new();
    let ghost want = input@.box_rows();
    assert(slices(parts@).len() == parts@.len());
    let mut i: usize = 0;
    while i < parts.len()
        invariant
            slices(parts@) == rows(input@.buffer),
            (line as int, col as int) == row_col(input@.buffer, input@.cursor),
            want == input@.box_rows(),
            want.len() == parts@.len(),
            i <= parts@.len(),
            lines@.len() == i,
            forall|j: int| 0 <= j < i ==> (#[trigger] lines@[j])@ == want[j],
        decreases parts@.len() - i,
    {
        assert(slices(parts@)[i as int] == parts@[i as int]@);
        if i == line {
            lines.push(draw_row_with_cursor(parts[i], col));
        } else {
            lines.push(draw_raw_line(parts[i]));
        }
        i += 1;
    }
    assert(line_models(lines@) =~= want);
    lines.push(Line::empty());
    let hint = Line::of(
        Span::styled("⏎ newline · Ctrl+S save · Esc cancel".to_string(), Style::fg(Color::DarkGray)),
    );
    lines.push(hint);
    assert(line_models(lines@) =~= input@.box_lines());
    lines
}

fn draw_box_title(input: &InputState) -> (r: String)
    ensures
        r@ == input@.box_title(),
{
    let mut r = " ".to_string();
    if input.editing.is_some() {
        push_text(&mut r, "Edit note");
    } else {
        push_text(&mut r, "New note");
    }
    push_text(&mut r, " · ");
    let mut place = if input.start.0 == input.end.0 {
        "line ".to_string()
    } else {
        "lines ".to_string()
    };
    push_decimal(&mut place, input.start.0 as u128);
    if input.start.0 != input.end.0 {
        push_text(&mut place, "-");
        push_decimal(&mut place, input.end.0 as u128);
    }
    push_text(&mut r, place.as_str());
    push_text(&mut r, " ");
    r
}

/// Centered overlay for composing or editing a multi-line note. The screen is at
/// least high enough for its borders and a few lines.
pub fn draw_note_input(input: &InputState, screen: Rect) -> (r: Overlay)
    requires
        input.wf(),
        screen.wf(),
        screen.height >= 7,
    ensures
        r.title@ == input@.box_title(),
        line_models(r.lines@) == input@.box_lines(),
        r.area == input@.box_area(screen),
{
    let lines = draw_box_lines(input);
    assert(line_models(lines@).len() == lines@.len());
    let width = if screen.width >= 76 {
        72
    } else if screen.width > 4 {
        screen.width - 4
    } else {
        0
    };
    let want = truncate_u16(lines.len()) as u32 + 2;
    let room = (screen.height - 2) as u32;
    let height = if want < 5 {
        5
    } else if want > room {
        room
    } else {
        want
    };
    Overlay {
        title: draw_box_title(input),
        lines,
        area: centered_rect(width, height as u16, screen),
    }
}

// ---- What drawing promises ---------------------------------------------------

/// The list has a row for the project and one for each file in the list, in order. The
/// row of a file shows its marker, its path and how many notes it has, and is as wide as
/// the panel is made for.
pub proof fn list_has_a_row_per_file(m: AppModel, i: int)
    requires
        0 <= i < m.visible().len(),
    ensures
        ({
            let path = m.visible()[i];
            let n = m.notes_of(path).len();
            let text = line_text(m.list_rows()[i + 1]);
            &&& m.list_rows().len() == m.visible().len() + 1
            &&& text == seq![marker_for(m.files, path), ' '] + path + (if n == 0 {
                Seq::empty()
            } else {
                "  ✎"@ + decimal(n)
            })
            &&& text.len() == m.row_width(path)
        }),
{
    let path = m.visible()[i];
    let n = m.notes_of(path).len();
    let marker = marker_for(m.files, path);
    let row = file_row(marker, path, n);
    let two = seq![styled(seq![marker, ' '], in_color(marker_color(marker))), raw(path)];
    assert(m.list_rows()[i + 1] == row);
    reveal_strlit("  ✎");
    let none = Seq::<SpanModel>::empty();
    line_text_adds_up(seq![two[0]], seq![two[1]], two[0]);
    line_text_adds_up(none, none, two[1]);
    assert(two =~= seq![two[0]] + seq![two[1]]);
    if n > 0 {
        let badge = styled("  ✎"@ + decimal(n), in_color(Color::Cyan));
        line_text_adds_up(two, seq![badge], badge);
        assert(row =~= two + seq![badge]);
    }
    assert(line_text(row) =~= seq![marker, ' '] + path + (if n == 0 {
        Seq::empty()
    } else {
        "  ✎"@ + decimal(n)
    }));
}

/// A file has the marker of its status, a blank if it has not changed.
pub proof fn files_have_their_marker(files: Seq<StatusModel>, path: Seq<char>, i: int)
    requires
        0 <= i <= files.len(),
        forall|j: int| 0 <= j < i ==> (#[trigger] files[j]).path != path,
        i < files.len() ==> files[i].path == path,
    ensures
        marker_for(files, path) == (if i < files.len() { status_marker(files[i].status) } else { ' ' }),
    decreases i,
{
    if i > 0 {
        let rest = files.skip(1);
        assert(files[0].path != path);
        assert forall|j: int| 0 <= j < i - 1 implies (#[trigger] rest[j]).path != path by {
            assert(rest[j] == files[j + 1]);
        }
        files_have_their_marker(rest, path, i - 1);
    }
}

proof fn lemma_widest(m: AppModel, k: int, i: int)
    requires
        0 <= i < k,
    ensures
        m.widest(k) >= m.row_width(m.visible()[i]),
    decreases k,
{
    if i < k - 1 {
        lemma_widest(m, k - 1, i);
    }
}

/// The list is wide enough for each of its rows, with the borders and the highlight
/// symbol, unless the preview would be left with less than 24 columns.
pub proof fn list_fits_its_rows(m: AppModel, total: u16, i: int)
    requires
        0 <= i < m.visible().len(),
        m.widest(m.visible().len() as int) < 0x1_0000,
    ensures
        m.left_width(total) >= m.row_width(m.visible()[i]) + 5 || (total >= 48 && m.left_width(total) == total - 24) || (
        total < 48 && m.left_width(total) == 24),
        18 <= m.left_width(total),
        total >= 48 ==> m.left_width(total) <= total - 24,
{
    lemma_widest(m, m.visible().len() as int, i);
}

/// A row of a note that is typed in shows its text, with the insertion point over the
/// character at its column, or behind the last.
pub proof fn row_shows_the_text(part: Seq<char>, col: int)
    requires
        0 <= col <= part.len(),
    ensures
        line_text(row_with_cursor(part, col)) == (if col < part.len() { part } else { part + " "@ }),
        row_with_cursor(part, col).len() == 3,
        row_with_cursor(part, col)[0].content == part.take(col),
        row_with_cursor(part, col)[1].style == modified(REVERSED),
        col < part.len() ==> row_with_cursor(part, col)[1].content == seq![part[col]],
{
    let row = row_with_cursor(part, col);
    let none = Seq::<SpanModel>::empty();
    line_text_adds_up(seq![row[0]], seq![row[1]], row[0]);
    line_text_adds_up(none, none, row[1]);
    line_text_adds_up(seq![row[0]] + seq![row[1]], seq![row[2]], row[2]);
    assert(row =~= seq![row[0]] + seq![row[1]] + seq![row[2]]);
    if col < part.len() {
        assert(line_text(row) =~= part);
    } else {
        assert(part.take(col) =~= part);
        assert(line_text(row) =~= part + " "@);
    }
}

/// The box has a row for each row of the text, and shows the insertion point on the
/// one that it is in.
pub proof fn box_shows_the_text(i: InputModel, k: int)
    requires
        i.wf(),
        0 <= k < pieces(i.buffer, '\n').len(),
    ensures
        i.box_rows().len() == pieces(i.buffer, '\n').len(),
        k != row_col(i.buffer, i.cursor).0 ==> line_text(i.box_rows()[k]) == pieces(i.buffer, '\n')[k],
        k == row_col(i.buffer, i.cursor).0 ==> i.box_rows()[k] == row_with_cursor(
            pieces(i.buffer, '\n')[k],
            row_col(i.buffer, i.cursor).1,
        ),
{
    let part = pieces(i.buffer, '\n')[k];
    let none = Seq::<SpanModel>::empty();
    line_text_adds_up(none, none, raw(part));
    if part.len() == 0 {
        assert(line_text(none) =~= part);
    }
}

/// The title of the preview names the file that is shown, or that of the hunk at the top
/// of the project's diff.
pub proof fn title_names_the_file(m: AppModel, h: int, path: Seq<char>, line: Option<usize>)
    ensures
        m.view == SubjectModel::File(path, line) ==> m.preview_title() == " "@ + path + " "@,
        m.view is Home && 0 <= h < m.hunks.len() && m.hunks[h].path == Some(path) && m.hunks[h].offset <= m.scroll && (
        forall|j: int| h < j < m.hunks.len() ==> (#[trigger] m.hunks[j]).offset > m.scroll) ==> m.preview_title()
            == " PROJECT-ROOT · "@ + path + " "@,
{
    if 0 <= h < m.hunks.len() && m.hunks[h].offset <= m.scroll && (forall|j: int|
        h < j < m.hunks.len() ==> (#[trigger] m.hunks[j]).offset > m.scroll) {
        lemma_mark_at_is(m.hunks, m.scroll as int, h);
    }
}

proof fn lemma_mark_at_is(marks: Seq<MarkModel>, row: int, h: int)
    requires
        0 <= h < marks.len(),
        marks[h].offset <= row,
        forall|j: int| h < j < marks.len() ==> (#[trigger] marks[j]).offset > row,
    ensures
        mark_at(marks, row) == Some(marks[h]),
    decreases marks.len(),
{
    if h < marks.len() - 1 {
        let init = marks.drop_last();
        assert(marks[marks.len() - 1].offset > row);
        assert forall|j: int| h < j < init.len() implies (#[trigger] init[j]).offset > row by {
            assert(init[j] == marks[j]);
        }
        lemma_mark_at_is(init, row, h);
    }
}

proof fn lemma_widest_is(m: AppModel, k: int)
    requires
        0 <= k,
    ensures
        m.widest(k) == "● PROJECT-ROOT"@.len() || m.widest(k) == list_title_of(
            m.file_list_mode,
            m.visible().len(),
        ).len() || exists|i: int| 0 <= i < k && m.widest(k) == #[trigger] m.row_width(m.visible()[i]),
        m.widest(k) >= "● PROJECT-ROOT"@.len(),
        m.widest(k) >= list_title_of(m.file_list_mode, m.visible().len()).len(),
    decreases k,
{
    if k > 0 {
        lemma_widest_is(m, k - 1);
        if m.widest(k) != m.widest(k - 1) {
            assert(m.widest(k) == m.row_width(m.visible()[k - 1]));
        }
    }
}

/// The list is no wider than its widest row asks for, the row of the project and the
/// title among them, and no narrower than 18 columns.
pub proof fn list_is_no_wider_than_its_rows(m: AppModel, total: u16)
    requires
        forall|i: int| 0 <= i < m.visible().len() ==> #[trigger] m.row_width(m.visible()[i]) < 0x1_0000,
        list_title_of(m.file_list_mode, m.visible().len()).len() < 0x1_0000,
    ensures
        m.left_width(total) <= 18 || m.left_width(total) <= "● PROJECT-ROOT"@.len() + 5 || m.left_width(total)
            <= list_title_of(m.file_list_mode, m.visible().len()).len() + 5 || exists|i: int|
            0 <= i < m.visible().len() && m.left_width(total) <= #[trigger] m.row_width(m.visible()[i]) + 5,
{
    reveal_strlit("● PROJECT-ROOT");
    lemma_widest_is(m, m.visible().len() as int);
}

}

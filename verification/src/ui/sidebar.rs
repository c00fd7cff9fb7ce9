//! The list of files in the viewer.

use super::search::{SearchMode, SearchModel, SearchState};
use crate::diff::{count_of, DiffLineType, FileDiff, FileModel};
use crate::number::{decimal, push_decimal, push_repeated};
use crate::screen::{least, left_of, truncate_u16, truncated};
use crate::style::{in_color, line_models, plain, styled, BOLD, Color, Line, Span, SpanModel, Style};
use crate::text::{
    boundary, byte_len, byte_len_is_utf8_length, bytes_in, chars_before, chars_of, is_boundary,
    lemma_boundary_unique, lemma_byte_len_add, push_chars, push_text,
};
use vstd::prelude::*;
use vstd::slice::slice_subrange;

verus! {

pub struct Sidebar {
    pub selected_index: usize,
    pub scroll_offset: u16,
}

/// How many columns a text takes up.
pub uninterp spec fn columns(text: Seq<char>) -> nat;

/// `unicode_width::UnicodeWidthStr::width`: how many columns a text takes up. Each
/// printable ASCII character takes up one.
#[verifier::external_body]
fn width_of_text(text: &str) -> (n: usize)
    ensures
        n == columns(text@),
        (forall|i: int| 0 <= i < text@.len() ==> ' ' <= #[trigger] text@[i] && text@[i] <= '~') ==> n
            == text@.len(),
{
    unicode_width::UnicodeWidthStr::width(text)
}

/// Whether a path can be shown: one of more than 50 bytes is cut before its last
/// 47, which must not fall inside a character.
pub open spec fn is_showable(path: Seq<char>) -> bool {
    byte_len(path) > 50 ==> is_boundary(path, byte_len(path) - 47)
}

/// A path as it is shown: a long one by its last 47 bytes.
pub open spec fn shown_path(path: Seq<char>) -> Seq<char> {
    if byte_len(path) > 50 {
        "..."@ + path.skip(chars_before(path, byte_len(path) - 47))
    } else {
        path
    }
}

/// Whether a path can be shown.
pub fn can_show(path: &str) -> (r: bool)
    ensures
        r == is_showable(path@),
{
    let chars = chars_of(path);
    let size = bytes_in(chars.as_slice());
    size <= 50 || boundary(chars.as_slice(), size - 47).is_some()
}

fn shorten_path(path: &str) -> (r: String)
    requires
        is_showable(path@),
    ensures
        r@ == shown_path(path@),
{
    let chars = chars_of(path);
    let size = bytes_in(chars.as_slice());
    if size > 50 {
        if let Some(k) = boundary(chars.as_slice(), size - 47) {
            let mut r = "...".to_string();
            push_chars(&mut r, slice_subrange(chars.as_slice(), k, chars.len()));
            return r;
        }
    }
    path.to_string()
}

/// How many spaces fill the row of a text on an area of the given width.
pub open spec fn padding(width: u16, columns: nat) -> int {
    left_of(left_of(width as int, truncated(columns as int)), 10)
}

/// Whether file names are searched.
pub open spec fn searches_names(search: SearchModel) -> bool {
    search.active && search.mode == SearchMode::Filename
}

/// Whether the file at index `i` is highlighted: it is the current match while
/// file names are searched, else the selected file.
pub open spec fn is_current(search: SearchModel, selected: usize, i: usize) -> bool {
    if searches_names(search) {
        search.current_match < search.filename_matches.len()
            && search.filename_matches[search.current_match as int] == i
    } else {
        i == selected
    }
}

/// The style of a file's path.
pub open spec fn path_style(search: SearchModel, selected: usize, i: usize) -> Style {
    if is_current(search, selected, i) {
        Style { fg: Some(Color::Black), bg: Some(Color::White), add: BOLD, ..plain() }
    } else if searches_names(search) && search.filename_matches.contains(i) {
        in_color(Color::Yellow)
    } else {
        in_color(Color::Gray)
    }
}

/// The row of a file: its additions and deletions, its path, and spaces up to the
/// border.
pub open spec fn sidebar_row(
    search: SearchModel,
    selected: usize,
    i: usize,
    file: FileModel,
    width: u16,
    columns: nat,
) -> Seq<SpanModel> {
    let current = is_current(search, selected, i);
    let style = path_style(search, selected, i);
    seq![
        styled(
            "+"@ + decimal(count_of(file.hunks, DiffLineType::Add)) + " "@,
            in_color(if current { Color::Black } else { Color::Green }),
        ),
        styled(
            "-"@ + decimal(count_of(file.hunks, DiffLineType::Remove)) + " "@,
            in_color(if current { Color::Black } else { Color::Red }),
        ),
        styled(shown_path(file.path), style),
        styled(Seq::new(padding(width, columns) as nat, |k: int| ' '), style),
    ]
}

/// The rows above the files: how many there are, and a gap.
pub open spec fn sidebar_head(count: nat) -> Seq<Seq<SpanModel>> {
    seq![
        seq![
            styled(
                " Files ("@ + decimal(count) + ") "@,
                Style { fg: Some(Color::White), add: BOLD, ..plain() },
            ),
        ],
        Seq::empty(),
    ]
}

/// The rows of the list.
pub open spec fn sidebar_rows(
    search: SearchModel,
    selected: usize,
    files: Seq<FileModel>,
    width: u16,
) -> Seq<Seq<SpanModel>> {
    sidebar_head(files.len()) + Seq::new(
        files.len(),
        |i: int|
            sidebar_row(
                search,
                selected,
                i as usize,
                files[i],
                width,
                columns(shown_path(files[i].path)),
            ),
    )
}

/// How far `rows` rows are scrolled on an area of the given height, borders
/// included, that is to be scrolled by `wanted`: not further than to the last
/// screenful.
pub open spec fn scroll_in(rows: int, height: u16, wanted: u16) -> u16 {
    least(wanted as int, truncated(left_of(rows, left_of(height as int, 2)))) as u16
}

/// How far rows are scrolled.
pub fn clamp_scroll(rows: usize, height: u16, wanted: u16) -> (r: u16)
    ensures
        r == scroll_in(rows as int, height, wanted),
{
    let room = if height > 2 {
        (height - 2) as usize
    } else {
        0
    };
    let max = truncate_u16(
        if room < rows {
            rows - room
        } else {
            0
        },
    );
    if wanted <= max {
        wanted
    } else {
        max
    }
}

fn is_listed(matches: &Vec<usize>, i: usize) -> (r: bool)
    ensures
        r == matches@.contains(i),
{
    let mut k: usize = 0;
    while k < matches.len()
        invariant
            k <= matches@.len(),
            forall|j: int| 0 <= j < k ==> matches@[j] != i,
        decreases matches@.len() - k,
    {
        if matches[k] == i {
            assert(matches@[k as int] == i);
            return true;
        }
        k += 1;
    }
    false
}

/// The row of a file whose shown path takes up `columns` columns.
pub fn draw_row(search: &SearchState, selected: usize, i: usize, file: &FileDiff, width: u16, columns: usize) -> (r:
    Line)
    requires
        is_showable(file@.path),
    ensures
        r@ == sidebar_row(search@, selected, i, file@, width, columns as nat),
{
    let by_name = search.active && search.mode == SearchMode::Filename;
    let current = if by_name {
        search.current_match < search.filename_matches.len() && search.filename_matches[search.current_match]
            == i
    } else {
        i == selected
    };
    let style = if current {
        Style {
            fg: Some(Color::Black),
            bg: Some(Color::White),
            underline: None,
            add: BOLD,
            sub: 0,
        }
    } else if by_name && is_listed(&search.filename_matches, i) {
        Style::fg(Color::Yellow)
    } else {
        Style::fg(Color::Gray)
    };
    let mut added = "+".to_string();
    push_decimal(&mut added, file.count(DiffLineType::Add));
    push_text(&mut added, " ");
    let mut removed = "-".to_string();
    push_decimal(&mut removed, file.count(DiffLineType::Remove));
    push_text(&mut removed, " ");
    let taken = truncate_u16(columns);
    let left = if taken < width {
        width - taken
    } else {
        0
    };
    let mut fill = String::new();
    push_repeated(
        &mut fill,
        ' ',
        if left > 10 {
            (left - 10) as usize
        } else {
            0
        },
    );
    assert(fill@ =~= Seq::new(padding(width, columns as nat) as nat, |k: int| ' '));
    let (plus, minus) = if current {
        (Color::Black, Color::Black)
    } else {
        (Color::Green, Color::Red)
    };
    let mut row = Line::of(Span::styled(added, Style::fg(plus)));
    row.push(Span::styled(removed, Style::fg(minus)));
    row.push(Span::styled(shorten_path(file.path.as_str()), style));
    row.push(Span::styled(fill, style));
    assert(row@ =~= sidebar_row(search@, selected, i, file@, width, columns as nat));
    row
}

impl Sidebar {
    pub fn new() -> (r: Sidebar)
        ensures
            r.selected_index == 0,
            r.scroll_offset == 0,
    {
        Sidebar { selected_index: 0, scroll_offset: 0 }
    }

    /// The rows of the list on an area of the given size, borders included, and how
    /// far they are scrolled.
    pub fn render(&self, width: u16, height: u16, files: &[FileDiff], search: &SearchState) -> (r: (
        Vec<Line>,
        u16,
    ))
        requires
            forall|i: int| 0 <= i < files@.len() ==> is_showable((#[trigger] files@[i])@.path),
        ensures
            line_models(r.0@) == sidebar_rows(
                search@,
                self.selected_index,
                crate::diff::file_models(files@),
                width,
            ),
            r.1 == scroll_in(r.0@.len() as int, height, self.scroll_offset),
    {
        let ghost all = crate::diff::file_models(files@);
        let ghost want = sidebar_rows(search@, self.selected_index, all, width);
        let mut head = " Files (".to_string();
        push_decimal(&mut head, files.len() as u128);
        push_text(&mut head, ") ");
        let bold = Style {
            fg: Some(Color::White),
            bg: None,
            underline: None,
            add: BOLD,
            sub: 0,
        };
        let mut lines: Vec<Line> = Vec::new();
        lines.push(Line::of(Span::styled(head, bold)));
        lines.push(Line::empty());
        assert(lines@[0]@ =~= want[0]);
        assert(lines@[1]@ =~= want[1]);
        let mut i: usize = 0;
        while i < files.len()
            invariant
                forall|i: int| 0 <= i < files@.len() ==> is_showable((#[trigger] files@[i])@.path),
                all == crate::diff::file_models(files@),
                want == sidebar_rows(search@, self.selected_index, all, width),
                want.len() == all.len() + 2,
                i <= files@.len(),
                lines@.len() == i + 2,
                forall|j: int| 0 <= j < i + 2 ==> (#[trigger] lines@[j])@ == want[j],
            decreases files@.len() - i,
        {
            let file = &files[i];
            assert(all[i as int] == file@);
            let columns = width_of_text(shorten_path(file.path.as_str()).as_str());
            let row = draw_row(search, self.selected_index, i, file, width, columns);
            assert(row@ == want[i + 2]);
            lines.push(row);
            i += 1;
        }
        assert(line_models(lines@) =~= want);
        let scroll = clamp_scroll(lines.len(), height, self.scroll_offset);
        (lines, scroll)
    }
}

// ---- What the list promises --------------------------------------------------

/// A path of up to 50 bytes is shown as it is; of a longer one the last 47 bytes, behind
/// three dots.
pub proof fn long_paths_are_cut(path: Seq<char>, head: Seq<char>, tail: Seq<char>)
    requires
        path == head + tail,
    ensures
        vstd::utf8::encode_utf8(path).len() <= 50 ==> shown_path(path) == path,
        vstd::utf8::encode_utf8(path).len() > 50 && vstd::utf8::encode_utf8(tail).len() == 47 ==> shown_path(path)
            == "..."@ + tail,
{
    byte_len_is_utf8_length(path);
    byte_len_is_utf8_length(tail);
    lemma_byte_len_add(head, tail);
    if byte_len(path) > 50 && byte_len(tail) == 47 {
        assert(path.take(head.len() as int) =~= head);
        lemma_boundary_unique(path, byte_len(path) - 47, head.len() as int);
        assert(path.skip(head.len() as int) =~= tail);
    }
}

/// The list has a heading with the number of files, a gap, and a row for each file in
/// order, with its additions, its deletions and its path.
pub proof fn sidebar_has_a_row_per_file(
    search: SearchModel,
    selected: usize,
    files: Seq<FileModel>,
    width: u16,
    i: int,
)
    requires
        0 <= i < files.len(),
    ensures
        ({
            let rows = sidebar_rows(search, selected, files, width);
            let row = rows[i + 2];
            &&& rows.len() == files.len() + 2
            &&& rows[0][0].content == " Files ("@ + decimal(files.len()) + ") "@
            &&& row[0].content == "+"@ + decimal(count_of(files[i].hunks, DiffLineType::Add)) + " "@
            &&& row[1].content == "-"@ + decimal(count_of(files[i].hunks, DiffLineType::Remove)) + " "@
            &&& row[2].content == shown_path(files[i].path)
        }),
{
}

/// Without a search for names the selected file is highlighted, and with one the
/// current match; the other matches stand out from the rest.
pub proof fn current_file_is_highlighted(search: SearchModel, selected: usize, i: usize)
    ensures
        !(search.active && search.mode == SearchMode::Filename) ==> (path_style(search, selected, i).bg is Some <==> i
            == selected),
        search.active && search.mode == SearchMode::Filename && search.current_match < search.filename_matches.len()
            ==> (path_style(search, selected, i).bg is Some <==> i
            == search.filename_matches[search.current_match as int]),
        search.active && search.mode == SearchMode::Filename && path_style(search, selected, i).bg is None ==> (
        path_style(search, selected, i).fg == Some(Color::Yellow) <==> search.filename_matches.contains(i)),
{
}

/// Rows are scrolled as far as is wanted, but no further than to the last screenful
/// between the borders.
pub proof fn scroll_shows_rows(rows: int, height: u16, wanted: u16)
    requires
        0 <= rows < 0x1_0000,
        height >= 2,
    ensures
        ({
            let (s, room) = (scroll_in(rows, height, wanted), height - 2);
            &&& s <= wanted
            &&& rows <= room ==> s == 0
            &&& rows > room ==> s + room <= rows
            &&& rows > room && wanted + room <= rows ==> s == wanted
            &&& rows > room && wanted + room > rows ==> s + room == rows
        }),
{
}

}

//! Turns raw diffs and file contents into colored, terminal-ready text.
//!
//! `delta` formats diffs and `bat` formats plain files; both print ANSI escape
//! sequences, which are read into styled lines here.

use crate::number::{decimal, decimal_string};
use crate::style::{
    cells_of, line_models, line_text, line_text_adds_up, named_color, parse_color, raw, span_models, Color,
    Line, Span, SpanModel, Style,
};
use crate::text::{
    chars_of, lines, lines_of, lossy, lossy_text, push_text, slices, string_of, text_in, texts, trim,
    trimmed,
};
use ansi_to_tui::IntoText;
use vstd::prelude::*;

verus! {

// ---- Programs ----------------------------------------------------------------

/// The arguments of delta. Wrapping is set in any case, so that delta's defaults
/// do not count.
pub open spec fn delta_command(width: u16, side_by_side: bool, wrap: bool) -> Seq<Seq<char>> {
    let common = seq![
        "--paging=never"@,
        "--line-numbers"@,
        "--width"@,
        decimal(width as nat),
        "--wrap-max-lines"@,
        if wrap { "unlimited"@ } else { "0"@ },
    ];
    if side_by_side {
        common.push("--side-by-side"@)
    } else {
        common
    }
}

/// The arguments of delta for a diff of the given width.
pub fn delta_args(width: u16, side_by_side: bool, wrap: bool) -> (r: Vec<String>)
    ensures
        texts(r@) == delta_command(width, side_by_side, wrap),
{
    let mut r = vec![
        "--paging=never".to_string(),
        "--line-numbers".to_string(),
        "--width".to_string(),
        decimal_string(width as usize),
        "--wrap-max-lines".to_string(),
    ];
    if wrap {
        r.push("unlimited".to_string());
    } else {
        r.push("0".to_string());
    }
    if side_by_side {
        r.push("--side-by-side".to_string());
    }
    assert(texts(r@) =~= delta_command(width, side_by_side, wrap));
    r
}

/// The arguments of bat for the file `path`, at the given width.
pub fn bat_args(path: &str, width: u16, wrap: bool) -> (r: Vec<String>)
    ensures
        texts(r@) == seq![
            "--color=always"@,
            "--style=numbers,changes"@,
            "--paging=never"@,
            "--wrap"@,
            if wrap { "auto"@ } else { "never"@ },
            "--terminal-width"@,
            decimal(width as nat),
            path@,
        ],
{
    let wrapping = if wrap {
        "auto".to_string()
    } else {
        "never".to_string()
    };
    let r = vec![
        "--color=always".to_string(),
        "--style=numbers,changes".to_string(),
        "--paging=never".to_string(),
        "--wrap".to_string(),
        wrapping,
        "--terminal-width".to_string(),
        decimal_string(width as usize),
        path.to_string(),
    ];
    assert(texts(r@) =~= seq![
        "--color=always"@,
        "--style=numbers,changes"@,
        "--paging=never"@,
        "--wrap"@,
        if wrap { "auto"@ } else { "never"@ },
        "--terminal-width"@,
        decimal(width as nat),
        path@,
    ]);
    r
}

// ---- Plain text --------------------------------------------------------------

/// A line of text as it is; an empty one has no pieces.
pub open spec fn raw_line(l: Seq<char>) -> Seq<SpanModel> {
    if l.len() == 0 { Seq::empty() } else { seq![raw(l)] }
}

/// The lines of a text as it is; an empty text is one empty line.
pub open spec fn raw_text(s: Seq<char>) -> Seq<Seq<SpanModel>> {
    if s.len() == 0 {
        seq![Seq::empty()]
    } else {
        lines_of(s).map_values(|l: Seq<char>| raw_line(l))
    }
}

/// The lines of a text as it is.
pub fn plain_text(s: &str) -> (r: Vec<Line>)
    ensures
        line_models(r@) == raw_text(s@),
{
    let mut r: Vec<Line> = Vec::new();
    let chars = chars_of(s);
    if chars.len() == 0 {
        r.push(Line::empty());
        assert(line_models(r@) =~= raw_text(s@));
        return r;
    }
    let all = lines(chars.as_slice());
    let mut i: usize = 0;
    while i < all.len()
        invariant
            i <= all@.len(),
            r@.len() == i,
            forall|j: int| 0 <= j < i ==> (#[trigger] r@[j])@ == raw_line(all@[j]@),
        decreases all@.len() - i,
    {
        if all[i].len() == 0 {
            r.push(Line::empty());
        } else {
            r.push(Line::of(Span::raw(string_of(all[i]))));
        }
        i += 1;
    }
    proof {
        assert forall|j: int| 0 <= j < r@.len() implies line_models(r@)[j] == raw_text(s@)[j] by {
            assert(slices(all@)[j] == all@[j]@);
        }
        assert(line_models(r@) =~= raw_text(s@));
    }
    r
}

// ---- ANSI escape sequences ---------------------------------------------------

/// A piece of text with the style that escape sequences gave it: its colors by
/// name, and the modifiers that are turned on and off.
#[derive(Clone, Debug)]
pub struct AnsiSpan {
    pub content: String,
    pub fg: Option<String>,
    pub bg: Option<String>,
    pub underline: Option<String>,
    pub add: u16,
    pub sub: u16,
}

/// A piece of text with the style that escape sequences gave it.
#[verifier::ext_equal]
pub struct AnsiModel {
    pub content: Seq<char>,
    pub fg: Option<Seq<char>>,
    pub bg: Option<Seq<char>>,
    pub underline: Option<Seq<char>>,
    pub add: u16,
    pub sub: u16,
}

impl View for AnsiSpan {
    type V = AnsiModel;

    open spec fn view(&self) -> AnsiModel {
        AnsiModel {
            content: self.content@,
            fg: text_in(self.fg),
            bg: text_in(self.bg),
            underline: text_in(self.underline),
            add: self.add,
            sub: self.sub,
        }
    }
}

/// The pieces of a line.
pub open spec fn ansi_models(v: Seq<AnsiSpan>) -> Seq<AnsiModel> {
    v.map_values(|s: AnsiSpan| s@)
}

/// The lines of a list.
pub open spec fn ansi_line_models(v: Seq<Vec<AnsiSpan>>) -> Seq<Seq<AnsiModel>> {
    v.map_values(|l: Vec<AnsiSpan>| ansi_models(l@))
}

/// The styled lines that bytes with escape sequences stand for.
pub uninterp spec fn ansi_lines(bytes: Seq<u8>) -> Option<Seq<Seq<AnsiModel>>>;

/// `ansi_to_tui::IntoText::into_text`: the styled lines that bytes with ANSI
/// escape sequences stand for, or `None` where they cannot be read. Each color
/// comes by the name that `ratatui::style::Color` prints for it, the modifiers as
/// the bits of `ratatui::style::Modifier`.
#[verifier::external_body]
fn parse_ansi(bytes: &[u8]) -> (r: Option<Vec<Vec<AnsiSpan>>>)
    ensures
        match r {
            Some(v) => ansi_lines(bytes@) == Some(ansi_line_models(v@)),
            None => ansi_lines(bytes@) is None,
        },
{
    let name = |c: Option<ratatui::style::Color>| c.map(|c| c.to_string());
    let convert = |s: ratatui::text::Span| AnsiSpan {
        content: s.content.to_string(),
        fg: name(s.style.fg),
        bg: name(s.style.bg),
        underline: name(s.style.underline_color),
        add: s.style.add_modifier.bits(),
        sub: s.style.sub_modifier.bits(),
    };
    let text = bytes.into_text().ok()?;
    Some(text.lines.into_iter().map(|l| l.spans.into_iter().map(convert).collect()).collect())
}

/// The color of a name, where there is one.
pub open spec fn color_of(name: Option<Seq<char>>) -> Option<Color> {
    match name {
        Some(n) => named_color(n),
        None => None,
    }
}

/// The styled piece that stands for a piece with escape sequences.
pub open spec fn ansi_span(s: AnsiModel) -> SpanModel {
    SpanModel {
        content: s.content,
        style: Style {
            fg: color_of(s.fg),
            bg: color_of(s.bg),
            underline: color_of(s.underline),
            add: s.add,
            sub: s.sub,
        },
    }
}

/// The styled line that stands for a line with escape sequences.
pub open spec fn ansi_line(l: Seq<AnsiModel>) -> Seq<SpanModel> {
    l.map_values(|s: AnsiModel| ansi_span(s))
}

/// The styled lines that stand for lines with escape sequences; where those
/// could not be read, the bytes as plain text.
pub open spec fn ansi_text(lines: Option<Seq<Seq<AnsiModel>>>, bytes: Seq<u8>) -> Seq<Seq<SpanModel>> {
    match lines {
        Some(v) => v.map_values(|l: Seq<AnsiModel>| ansi_line(l)),
        None => raw_text(lossy_text(bytes)),
    }
}

fn to_color(name: &Option<String>) -> (r: Option<Color>)
    ensures
        r == color_of(text_in(*name)),
{
    match name {
        Some(n) => parse_color(n.as_str()),
        None => None,
    }
}

fn to_line(l: &[AnsiSpan]) -> (r: Line)
    ensures
        r@ == ansi_line(ansi_models(l@)),
{
    let mut spans: Vec<Span> = Vec::new();
    let mut i: usize = 0;
    while i < l.len()
        invariant
            i <= l@.len(),
            spans@.len() == i,
            forall|j: int| 0 <= j < i ==> (#[trigger] spans@[j])@ == ansi_span(l@[j]@),
        decreases l@.len() - i,
    {
        let s = &l[i];
        spans.push(
            Span {
                content: s.content.clone(),
                style: Style {
                    fg: to_color(&s.fg),
                    bg: to_color(&s.bg),
                    underline: to_color(&s.underline),
                    add: s.add,
                    sub: s.sub,
                },
            },
        );
        i += 1;
    }
    assert(span_models(spans@) =~= ansi_line(ansi_models(l@)));
    Line { spans }
}

/// The styled lines that stand for lines with escape sequences, or for the bytes
/// they could not be read from.
pub fn styled_lines(parsed: &Option<Vec<Vec<AnsiSpan>>>, bytes: &[u8]) -> (r: Vec<Line>)
    ensures
        line_models(r@) == ansi_text(
            match *parsed {
                Some(v) => Some(ansi_line_models(v@)),
                None => None,
            },
            bytes@,
        ),
{
    match parsed {
        Some(v) => {
            let mut r: Vec<Line> = Vec::new();
            let mut i: usize = 0;
            while i < v.len()
                invariant
                    i <= v@.len(),
                    r@.len() == i,
                    forall|j: int| 0 <= j < i ==> (#[trigger] r@[j])@ == ansi_line(ansi_models(v@[j]@)),
                decreases v@.len() - i,
            {
                r.push(to_line(v[i].as_slice()));
                i += 1;
            }
            assert(line_models(r@) =~= ansi_line_models(v@).map_values(
                |l: Seq<AnsiModel>| ansi_line(l),
            ));
            r
        },
        None => plain_text(lossy(bytes).as_str()),
    }
}

/// Converts ANSI bytes into styled lines, falling back to lossy plain text.
pub fn ansi_to_text(bytes: &[u8]) -> (r: Vec<Line>)
    ensures
        line_models(r@) == ansi_text(ansi_lines(bytes@), bytes@),
{
    let parsed = parse_ansi(bytes);
    styled_lines(&parsed, bytes)
}

// ---- Diffs and contents ------------------------------------------------------

/// Whether there is a diff to show; delta is asked only if there is.
pub fn has_changes(raw_diff: &str) -> (r: bool)
    ensures
        r == (trimmed(raw_diff@).len() > 0),
{
    let chars = chars_of(raw_diff);
    trim(chars.as_slice()).len() > 0
}

/// What delta or bat gave: the bytes it printed, or what went wrong.
pub type Rendered = Result<Vec<u8>, String>;

/// The lines shown for what a program gave: what it printed, or its name and
/// what went wrong.
pub open spec fn shown(program: Seq<char>, output: Rendered) -> Seq<Seq<SpanModel>> {
    match output {
        Ok(bytes) => ansi_text(ansi_lines(bytes@), bytes@),
        Err(e) => raw_text(program + " error: "@ + e@),
    }
}

fn show(program: &str, output: &Rendered) -> (r: Vec<Line>)
    ensures
        line_models(r@) == shown(program@, *output),
{
    match output {
        Ok(bytes) => ansi_to_text(bytes.as_slice()),
        Err(e) => {
            let mut message = program.to_string();
            push_text(&mut message, " error: ");
            push_text(&mut message, e.as_str());
            plain_text(message.as_str())
        },
    }
}

/// Colored diff text for display, from what delta gave for the diff.
pub fn diff_text(raw_diff: &str, delta: &Rendered) -> (r: Vec<Line>)
    ensures
        line_models(r@) == (if trimmed(raw_diff@).len() == 0 {
            raw_text("No changes."@)
        } else {
            shown("delta"@, *delta)
        }),
{
    if has_changes(raw_diff) {
        show("delta", delta)
    } else {
        plain_text("No changes.")
    }
}

/// Colored file-content text for display, from what bat gave for the file.
pub fn content_text(path: &str, exists: bool, bat: &Rendered) -> (r: Vec<Line>)
    ensures
        line_models(r@) == (if exists {
            shown("bat"@, *bat)
        } else {
            raw_text("File not found: "@ + path@)
        }),
{
    if exists {
        show("bat", bat)
    } else {
        let mut message = "File not found: ".to_string();
        push_text(&mut message, path);
        plain_text(message.as_str())
    }
}

// ---- Cells -------------------------------------------------------------------

/// Flattens a rendered line into per-character `(char, style)` cells.
pub fn flatten_line(line: &Line) -> (cells: Vec<(char, Style)>)
    ensures
        cells@ == cells_of(line@),
{
    let mut cells: Vec<(char, Style)> = Vec::new();
    let mut i: usize = 0;
    assert(line@.take(0) =~= Seq::empty());
    while i < line.spans.len()
        invariant
            i <= line.spans@.len(),
            cells@ == cells_of(line@.take(i as int)),
        decreases line.spans@.len() - i,
    {
        let style = line.spans[i].style;
        let chars = chars_of(line.spans[i].content.as_str());
        let ghost before = cells@;
        let mut k: usize = 0;
        while k < chars.len()
            invariant
                k <= chars@.len(),
                cells@ == before + chars@.take(k as int).map_values(|c: char| (c, style)),
            decreases chars@.len() - k,
        {
            cells.push((chars[k], style));
            proof {
                assert(chars@.take(k + 1).map_values(|c: char| (c, style)) =~= chars@.take(
                    k as int,
                ).map_values(|c: char| (c, style)).push((chars@[k as int], style)));
            }
            k += 1;
        }
        proof {
            assert(chars@.take(k as int) =~= chars@);
            let upto = line@.take(i + 1);
            assert(upto.drop_last() =~= line@.take(i as int));
            assert(upto.last() == line.spans@[i as int]@);
        }
        i += 1;
    }
    assert(line@.take(i as int) =~= line@);
    cells
}

// ---- What rendering promises -------------------------------------------------

/// A styled line shows the text of its pieces, in order.
pub proof fn styled_line_shows_its_text(l: Seq<AnsiModel>, s: AnsiModel)
    ensures
        line_text(ansi_line(l.push(s))) == line_text(ansi_line(l)) + s.content,
        line_text(ansi_line(Seq::empty())).len() == 0,
        ansi_line(l).len() == l.len(),
{
    assert(ansi_line(l.push(s)).drop_last() =~= ansi_line(l));
}

/// Plain text is shown line by line, each as it is.
pub proof fn plain_text_shows_its_lines(s: Seq<char>, i: int)
    requires
        0 <= i < lines_of(s).len(),
    ensures
        raw_text(s).len() == lines_of(s).len(),
        line_text(raw_text(s)[i]) == lines_of(s)[i],
{
    let l = lines_of(s)[i];
    let none = Seq::<SpanModel>::empty();
    line_text_adds_up(none, none, raw(l));
    if l.len() == 0 {
        assert(line_text(none) =~= l);
    }
}

}

//! Styled text: colors, modifiers, spans and lines.

use crate::number::{number_of, parse_number};
use crate::text::{chars_of, is_text};
use vstd::prelude::*;

verus! {

// ---- Colors ------------------------------------------------------------------

#[derive(Clone, Copy, Debug, PartialEq, Eq, Structural)]
pub enum Color {
    Reset,
    Black,
    Red,
    Green,
    Yellow,
    Blue,
    Magenta,
    Cyan,
    Gray,
    DarkGray,
    LightRed,
    LightGreen,
    LightYellow,
    LightBlue,
    LightMagenta,
    LightCyan,
    White,
    Rgb(u8, u8, u8),
    Indexed(u8),
}

/// The value of an upper-case hexadecimal digit.
pub open spec fn hex_value(c: char) -> Option<u8> {
    if '0' <= c && c <= '9' {
        Some((c as u8 - 48) as u8)
    } else if 'A' <= c && c <= 'F' {
        Some((c as u8 - 55) as u8)
    } else {
        None
    }
}

/// The byte that two hexadecimal digits denote.
pub open spec fn hex_byte(h: char, l: char) -> Option<u8> {
    match (hex_value(h), hex_value(l)) {
        (Some(a), Some(b)) => Some((a * 16 + b) as u8),
        _ => None,
    }
}

/// The color that `#RRGGBB` denotes.
pub open spec fn hex_color(s: Seq<char>) -> Option<Color> {
    if s.len() == 7 && s[0] == '#' {
        match (hex_byte(s[1], s[2]), hex_byte(s[3], s[4]), hex_byte(s[5], s[6])) {
            (Some(r), Some(g), Some(b)) => Some(Color::Rgb(r, g, b)),
            _ => None,
        }
    } else {
        None
    }
}

/// The color that a text names: by a word, as `#RRGGBB`, or by its number in
/// the palette.
pub open spec fn named_color(s: Seq<char>) -> Option<Color> {
    if s == "Reset"@ {
        Some(Color::Reset)
    } else if s == "Black"@ {
        Some(Color::Black)
    } else if s == "Red"@ {
        Some(Color::Red)
    } else if s == "Green"@ {
        Some(Color::Green)
    } else if s == "Yellow"@ {
        Some(Color::Yellow)
    } else if s == "Blue"@ {
        Some(Color::Blue)
    } else if s == "Magenta"@ {
        Some(Color::Magenta)
    } else if s == "Cyan"@ {
        Some(Color::Cyan)
    } else if s == "Gray"@ {
        Some(Color::Gray)
    } else if s == "DarkGray"@ {
        Some(Color::DarkGray)
    } else if s == "LightRed"@ {
        Some(Color::LightRed)
    } else if s == "LightGreen"@ {
        Some(Color::LightGreen)
    } else if s == "LightYellow"@ {
        Some(Color::LightYellow)
    } else if s == "LightBlue"@ {
        Some(Color::LightBlue)
    } else if s == "LightMagenta"@ {
        Some(Color::LightMagenta)
    } else if s == "LightCyan"@ {
        Some(Color::LightCyan)
    } else if s == "White"@ {
        Some(Color::White)
    } else if hex_color(s) is Some {
        hex_color(s)
    } else {
        match number_of(s) {
            Some(n) if n < 256 => Some(Color::Indexed(n as u8)),
            _ => None,
        }
    }
}

fn parse_hex(c: char) -> (r: Option<u8>)
    ensures
        r == hex_value(c),
{
    if '0' <= c && c <= '9' {
        Some(c as u8 - 48)
    } else if 'A' <= c && c <= 'F' {
        Some(c as u8 - 55)
    } else {
        None
    }
}

fn parse_byte(h: char, l: char) -> (r: Option<u8>)
    ensures
        r == hex_byte(h, l),
{
    match (parse_hex(h), parse_hex(l)) {
        (Some(a), Some(b)) => Some(a * 16 + b),
        _ => None,
    }
}

/// The color that a text names.
pub fn parse_color(name: &str) -> (r: Option<Color>)
    ensures
        r == named_color(name@),
{
    let v = chars_of(name);
    let s = v.as_slice();
    if is_text(s, "Reset") {
        Some(Color::Reset)
    } else if is_text(s, "Black") {
        Some(Color::Black)
    } else if is_text(s, "Red") {
        Some(Color::Red)
    } else if is_text(s, "Green") {
        Some(Color::Green)
    } else if is_text(s, "Yellow") {
        Some(Color::Yellow)
    } else if is_text(s, "Blue") {
        Some(Color::Blue)
    } else if is_text(s, "Magenta") {
        Some(Color::Magenta)
    } else if is_text(s, "Cyan") {
        Some(Color::Cyan)
    } else if is_text(s, "Gray") {
        Some(Color::Gray)
    } else if is_text(s, "DarkGray") {
        Some(Color::DarkGray)
    } else if is_text(s, "LightRed") {
        Some(Color::LightRed)
    } else if is_text(s, "LightGreen") {
        Some(Color::LightGreen)
    } else if is_text(s, "LightYellow") {
        Some(Color::LightYellow)
    } else if is_text(s, "LightBlue") {
        Some(Color::LightBlue)
    } else if is_text(s, "LightMagenta") {
        Some(Color::LightMagenta)
    } else if is_text(s, "LightCyan") {
        Some(Color::LightCyan)
    } else if is_text(s, "White") {
        Some(Color::White)
    } else {
        if s.len() == 7 && s[0] == '#' {
            if let (Some(r), Some(g), Some(b)) = (
                parse_byte(s[1], s[2]),
                parse_byte(s[3], s[4]),
                parse_byte(s[5], s[6]),
            ) {
                return Some(Color::Rgb(r, g, b));
            }
        }
        match parse_number(s) {
            Some(n) => if n < 256 {
                Some(Color::Indexed(n as u8))
            } else {
                None
            },
            None => None,
        }
    }
}

// ---- Styles ------------------------------------------------------------------

pub const BOLD: u16 = 0x0001;

pub const DIM: u16 = 0x0002;

pub const ITALIC: u16 = 0x0004;

pub const UNDERLINED: u16 = 0x0008;

pub const REVERSED: u16 = 0x0040;

/// How a piece of text looks: its colors, the modifiers it turns on and those it
/// turns off.
#[derive(Clone, Copy, Debug, PartialEq, Eq, Structural)]
pub struct Style {
    pub fg: Option<Color>,
    pub bg: Option<Color>,
    pub underline: Option<Color>,
    pub add: u16,
    pub sub: u16,
}

/// The first choice, or the second where there is none.
pub open spec fn either(first: Option<Color>, second: Option<Color>) -> Option<Color> {
    if first is Some { first } else { second }
}

/// The style that changes nothing.
pub open spec fn plain() -> Style {
    Style { fg: None, bg: None, underline: None, add: 0, sub: 0 }
}

/// The style with one color, of the text.
pub open spec fn in_color(c: Color) -> Style {
    Style { fg: Some(c), ..plain() }
}

/// The style with one color, of the background.
pub open spec fn on_color(c: Color) -> Style {
    Style { bg: Some(c), ..plain() }
}

/// The style with modifiers.
pub open spec fn modified(m: u16) -> Style {
    Style { add: m, ..plain() }
}

impl Style {
    /// The style that changes nothing.
    pub fn plain() -> (r: Style)
        ensures
            r == plain(),
    {
        Style { fg: None, bg: None, underline: None, add: 0, sub: 0 }
    }

    /// The style with one color, of the text.
    pub fn fg(c: Color) -> (r: Style)
        ensures
            r == in_color(c),
    {
        Style { fg: Some(c), bg: None, underline: None, add: 0, sub: 0 }
    }

    /// The style with one color, of the background.
    pub fn bg(c: Color) -> (r: Style)
        ensures
            r == on_color(c),
    {
        Style { fg: None, bg: Some(c), underline: None, add: 0, sub: 0 }
    }

    /// The style with modifiers.
    pub fn modifier(m: u16) -> (r: Style)
        ensures
            r == modified(m),
    {
        Style { fg: None, bg: None, underline: None, add: m, sub: 0 }
    }

    /// What the style becomes with `other` laid over it: where `other` has a
    /// color it counts, and so do the modifiers that it turns on and off.
    pub open spec fn patched(self, other: Style) -> Style {
        Style {
            fg: either(other.fg, self.fg),
            bg: either(other.bg, self.bg),
            underline: either(other.underline, self.underline),
            add: (self.add & !other.sub) | other.add,
            sub: (self.sub & !other.add) | other.sub,
        }
    }

    /// The style with `other` laid over it.
    pub fn patch(self, other: Style) -> (r: Style)
        ensures
            r == self.patched(other),
    {
        Style {
            fg: if other.fg.is_some() {
                other.fg
            } else {
                self.fg
            },
            bg: if other.bg.is_some() {
                other.bg
            } else {
                self.bg
            },
            underline: if other.underline.is_some() {
                other.underline
            } else {
                self.underline
            },
            add: (self.add & !other.sub) | other.add,
            sub: (self.sub & !other.add) | other.sub,
        }
    }
}

// ---- Spans and lines ---------------------------------------------------------

/// A piece of text in one style.
#[derive(Clone, Debug)]
pub struct Span {
    pub content: String,
    pub style: Style,
}

/// A piece of text in one style.
#[verifier::ext_equal]
pub struct SpanModel {
    pub content: Seq<char>,
    pub style: Style,
}

impl View for Span {
    type V = SpanModel;

    open spec fn view(&self) -> SpanModel {
        SpanModel { content: self.content@, style: self.style }
    }
}

/// A line of text.
#[derive(Clone, Debug)]
pub struct Line {
    pub spans: Vec<Span>,
}

/// The pieces of a list.
pub open spec fn span_models(v: Seq<Span>) -> Seq<SpanModel> {
    v.map_values(|s: Span| s@)
}

impl View for Line {
    type V = Seq<SpanModel>;

    open spec fn view(&self) -> Seq<SpanModel> {
        span_models(self.spans@)
    }
}

/// The lines of a list.
pub open spec fn line_models(v: Seq<Line>) -> Seq<Seq<SpanModel>> {
    v.map_values(|l: Line| l@)
}

/// A piece of text in a style.
pub open spec fn styled(content: Seq<char>, style: Style) -> SpanModel {
    SpanModel { content, style }
}

/// A piece of text as it is.
pub open spec fn raw(content: Seq<char>) -> SpanModel {
    SpanModel { content, style: plain() }
}

impl Span {
    /// A piece of text in a style.
    pub fn styled(content: String, style: Style) -> (r: Span)
        ensures
            r@ == styled(content@, style),
    {
        Span { content, style }
    }

    /// A piece of text as it is.
    pub fn raw(content: String) -> (r: Span)
        ensures
            r@ == raw(content@),
    {
        Span { content, style: Style::plain() }
    }
}

impl Line {
    /// A line of one piece.
    pub fn of(span: Span) -> (r: Line)
        ensures
            r@ == seq![span@],
    {
        let mut spans: Vec<Span> = Vec::new();
        spans.push(span);
        assert(span_models(spans@) =~= seq![span@]);
        Line { spans }
    }

    /// An empty line.
    pub fn empty() -> (r: Line)
        ensures
            r@ == Seq::<SpanModel>::empty(),
    {
        let r = Line { spans: Vec::new() };
        assert(r@ =~= Seq::empty());
        r
    }

    /// Appends a piece.
    pub fn push(&mut self, span: Span)
        ensures
            final(self)@ == old(self)@.push(span@),
    {
        self.spans.push(span);
        assert(self@ =~= old(self)@.push(span@));
    }
}

/// The text of a line, without its styles.
pub open spec fn line_text(spans: Seq<SpanModel>) -> Seq<char>
    decreases spans.len(),
{
    if spans.len() == 0 {
        Seq::empty()
    } else {
        line_text(spans.drop_last()) + spans.last().content
    }
}

/// The characters of a line, each with its style.
pub open spec fn cells_of(spans: Seq<SpanModel>) -> Seq<(char, Style)>
    decreases spans.len(),
{
    if spans.len() == 0 {
        Seq::empty()
    } else {
        cells_of(spans.drop_last()) + spans.last().content.map_values(
            |c: char| (c, spans.last().style),
        )
    }
}

// ---- What texts and styles promise -------------------------------------------

/// The text of a line and its cells are those of its pieces, one after the other; the
/// cells show the text.
pub proof fn line_text_adds_up(a: Seq<SpanModel>, b: Seq<SpanModel>, s: SpanModel)
    ensures
        line_text(a + b) == line_text(a) + line_text(b),
        line_text(seq![s]) == s.content,
        cells_of(a + b) == cells_of(a) + cells_of(b),
        cells_of(seq![s]) == s.content.map_values(|c: char| (c, s.style)),
    decreases b.len(),
{
    reveal_with_fuel(line_text, 2);
    reveal_with_fuel(cells_of, 2);
    assert(seq![s].drop_last() =~= Seq::empty());
    assert(line_text(seq![s]) =~= s.content);
    assert(cells_of(seq![s]) =~= s.content.map_values(|c: char| (c, s.style)));
    if b.len() == 0 {
        assert(a + b =~= a);
        assert(line_text(a) + line_text(b) =~= line_text(a));
        assert(cells_of(a) + cells_of(b) =~= cells_of(a));
    } else {
        line_text_adds_up(a, b.drop_last(), s);
        assert((a + b).drop_last() =~= a + b.drop_last());
        assert((a + b).last() == b.last());
        assert(line_text(a + b) =~= line_text(a) + line_text(b));
        assert(cells_of(a + b) =~= cells_of(a) + cells_of(b));
    }
}

/// A style that says nothing changes nothing, over another or under it; what is laid
/// over counts where it says something.
pub proof fn patching_lays_over(s: Style, t: Style)
    ensures
        s.patched(plain()) == s,
        t.sub & t.add == 0 ==> plain().patched(t) == t,
        t.fg is Some ==> s.patched(t).fg == t.fg,
        t.fg is None ==> s.patched(t).fg == s.fg,
        t.bg is Some ==> s.patched(t).bg == t.bg,
        t.bg is None ==> s.patched(t).bg == s.bg,
        t.underline is Some ==> s.patched(t).underline == t.underline,
        t.underline is None ==> s.patched(t).underline == s.underline,
        s.patched(t).add & t.add == t.add,
        s.patched(t).sub & t.sub == t.sub,
{
    let (a, b, x, y) = (s.add, s.sub, t.add, t.sub);
    assert((a & !0u16) | 0u16 == a) by (bit_vector);
    assert((b & !0u16) | 0u16 == b) by (bit_vector);
    assert((0u16 & !y) | x == x) by (bit_vector);
    assert((0u16 & !x) | y == y) by (bit_vector);
    assert(((a & !y) | x) & x == x) by (bit_vector);
    assert(((b & !x) | y) & y == y) by (bit_vector);
}

/// The upper-case hexadecimal digit of a number.
pub open spec fn hex_char(d: u8) -> char {
    if d < 10 { (48 + d) as u8 as char } else { (55 + d) as u8 as char }
}

/// A color is read back from its hexadecimal digits.
pub proof fn hex_colors_are_read(r: u8, g: u8, b: u8)
    ensures
        hex_color(
            seq![
                '#',
                hex_char(r / 16),
                hex_char(r % 16),
                hex_char(g / 16),
                hex_char(g % 16),
                hex_char(b / 16),
                hex_char(b % 16),
            ],
        ) == Some(Color::Rgb(r, g, b)),
{
}

}

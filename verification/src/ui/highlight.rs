//! Syntax colors for the lines of a diff.

use crate::git::concatenated;
use crate::style::Color;
use crate::text::{pieces, text_in, texts};
use syntect::easy::HighlightLines;
use syntect::highlighting::{Style, ThemeSet};
use syntect::parsing::SyntaxSet;
use vstd::prelude::*;

verus! {

// ---- Themes ------------------------------------------------------------------

/// The themes that are cycled through.
pub open spec fn theme_list() -> Seq<Seq<char>> {
    seq![
        "base16-ocean.dark"@,
        "Monokai Extended"@,
        "Solarized (dark)"@,
        "Solarized (light)"@,
        "GitHub"@,
        "Dracula"@,
        "OneHalfDark"@,
        "base16-eighties.dark"@,
        "base16-mocha.dark"@,
        "serena"@,
        "InspiredGitHub"@,
    ]
}

/// The themes that are cycled through.
pub fn themes() -> (r: Vec<String>)
    ensures
        texts(r@) == theme_list(),
{
    let r = vec![
        "base16-ocean.dark".to_string(),
        "Monokai Extended".to_string(),
        "Solarized (dark)".to_string(),
        "Solarized (light)".to_string(),
        "GitHub".to_string(),
        "Dracula".to_string(),
        "OneHalfDark".to_string(),
        "base16-eighties.dark".to_string(),
        "base16-mocha.dark".to_string(),
        "serena".to_string(),
        "InspiredGitHub".to_string(),
    ];
    assert(texts(r@) =~= theme_list());
    r
}

/// Whether a theme is among those that the highlighter comes with.
pub open spec fn is_bundled(name: Seq<char>) -> bool {
    name == "base16-ocean.dark"@ || name == "base16-eighties.dark"@ || name == "base16-mocha.dark"@ || name
        == "base16-ocean.light"@ || name == "InspiredGitHub"@ || name == "Solarized (dark)"@ || name
        == "Solarized (light)"@
}

/// `syntect::highlighting::ThemeSet::load_defaults`: the themes that come with
/// syntect are the four `base16` ones, `InspiredGitHub` and the two `Solarized`
/// ones.
#[verifier::external_body]
fn has_theme(name: &str) -> (r: bool)
    ensures
        r == is_bundled(name@),
{
    ThemeSet::load_defaults().themes.contains_key(name)
}

/// The theme after `name` in the list, if there is one and it can be loaded; else
/// `name` itself.
pub open spec fn next_theme(name: Seq<char>) -> Seq<char> {
    match crate::app::place_of(theme_list(), name, 0) {
        Some(i) => {
            let next = theme_list()[(i + 1) % theme_list().len() as int];
            if is_bundled(next) { next } else { name }
        },
        None => name,
    }
}

/// Colors lines by a theme.
#[derive(Debug, Clone)]
pub struct Highlighter {
    theme_name: String,
}

impl Highlighter {
    /// The theme that colors the lines.
    pub closed spec fn theme(&self) -> Seq<char> {
        self.theme_name@
    }

    /// Whether the theme can be loaded.
    pub open spec fn wf(&self) -> bool {
        is_bundled(self.theme())
    }

    /// The highlighter in its first theme.
    pub fn new() -> (r: Highlighter)
        ensures
            r.theme() == "base16-ocean.dark"@,
            r.wf(),
    {
        Highlighter { theme_name: "base16-ocean.dark".to_string() }
    }

    pub fn theme_name(&self) -> (r: &str)
        ensures
            r@ == self.theme(),
    {
        self.theme_name.as_str()
    }

    /// Goes on to the next theme of the list. Where that cannot be loaded the theme
    /// stays.
    pub fn cycle_theme(&mut self)
        requires
            old(self).wf(),
        ensures
            final(self).theme() == next_theme(old(self).theme()),
            final(self).wf(),
    {
        let all = themes();
        match crate::app::position_of(all.as_slice(), self.theme_name.as_str()) {
            Some(i) => {
                assert(texts(all@).len() == all@.len());
                let next = (i + 1) % all.len();
                assert(texts(all@)[next as int] == all@[next as int]@);
                self.load_theme(all[next].as_str());
            },
            None => {},
        }
    }

    /// Takes the theme `name`, if it can be loaded.
    fn load_theme(&mut self, name: &str)
        requires
            old(self).wf(),
        ensures
            final(self).theme() == (if is_bundled(name@) { name@ } else { old(self).theme() }),
            final(self).wf(),
    {
        if has_theme(name) {
            self.theme_name = name.to_string();
        }
    }
}

// ---- Lines -------------------------------------------------------------------

/// The index of the last dot; -1 if there is none.
pub open spec fn last_dot(name: Seq<char>) -> int
    decreases name.len(),
{
    if name.len() == 0 {
        -1
    } else if name.last() == '.' {
        name.len() - 1
    } else {
        last_dot(name.drop_last())
    }
}

/// The extension of the last component of a path.
pub uninterp spec fn extension(path: Seq<char>) -> Option<Seq<char>>;

/// `Path::extension`: what follows the last dot of the file name, unless that dot
/// is its first character. The file name is what follows the last separator, if
/// that is neither empty nor `.` nor `..`.
#[verifier::external_body]
fn file_extension(path: &str) -> (r: Option<String>)
    ensures
        text_in(r) == extension(path@),
        ({
            let name = pieces(path@, '/').last();
            name.len() > 0 && name != "."@ && name != ".."@ ==> text_in(r) == (if last_dot(name) <= 0 {
                None
            } else {
                Some(name.skip(last_dot(name) + 1))
            })
        }),
{
    std::path::Path::new(path).extension().map(|e| e.to_string_lossy().into_owned())
}

/// A colored piece of a line.
pub type Token = (String, Color);

/// Colored pieces.
pub open spec fn token_models(v: Seq<Token>) -> Seq<(Seq<char>, Color)> {
    v.map_values(|t: Token| (t.0@, t.1))
}

/// A piece of a line, and its color in red, green and blue.
pub type RawToken = (String, (u8, u8, u8));

/// Colored pieces, if they could be had.
pub open spec fn raw_models(v: Option<Vec<RawToken>>) -> Option<Seq<(Seq<char>, (u8, u8, u8))>> {
    match v {
        Some(tokens) => Some(tokens@.map_values(|t: RawToken| (t.0@, t.1))),
        None => None,
    }
}

/// Whether there is a syntax for an extension.
pub uninterp spec fn is_known(extension: Seq<char>) -> bool;

/// `syntect::parsing::SyntaxSet::find_syntax_by_extension`: whether one of the
/// syntaxes that come with syntect is for the extension.
#[verifier::external_body]
fn has_syntax(extension: &str) -> (r: bool)
    ensures
        r == is_known(extension@),
{
    SyntaxSet::load_defaults_newlines().find_syntax_by_extension(extension).is_some()
}

/// The colored pieces of a line by the syntax for an extension, or as plain text
/// where there is no extension, in a theme.
pub uninterp spec fn colored(line: Seq<char>, extension: Option<Seq<char>>, theme: Seq<char>) -> Option<
    Seq<(Seq<char>, (u8, u8, u8))>,
>;

/// The texts of colored pieces.
pub open spec fn piece_texts(v: Seq<(Seq<char>, (u8, u8, u8))>) -> Seq<Seq<char>> {
    v.map_values(|t: (Seq<char>, (u8, u8, u8))| t.0)
}

/// `syntect::easy::HighlightLines::highlight_line`, for each of the lines by
/// itself: the colored pieces of the line by the syntax for an extension that has
/// one, or as plain text where no extension is given, in one of the bundled themes,
/// or `None` where the line could not be read. The pieces make up the line.
#[verifier::external_body]
fn color_lines(lines: &[String], extension: Option<&str>, theme: &str) -> (r: Vec<Option<Vec<RawToken>>>)
    requires
        is_bundled(theme@),
        extension matches Some(e) ==> is_known(e@),
    ensures
        r@.len() == lines@.len(),
        forall|i: int|
            0 <= i < r@.len() ==> raw_models(#[trigger] r@[i]) == colored(
                lines@[i]@,
                slice_in(extension),
                theme@,
            ),
        forall|i: int|
            0 <= i < r@.len() ==> (raw_models(#[trigger] r@[i]) matches Some(v) ==> concatenated(
                piece_texts(v),
            ) == lines@[i]@),
{
    let syntaxes = SyntaxSet::load_defaults_newlines();
    let themes = ThemeSet::load_defaults().themes;
    let syntax = match extension {
        Some(e) => syntaxes.find_syntax_by_extension(e).unwrap(),
        None => syntaxes.find_syntax_plain_text(),
    };
    let token = |(s, t): (Style, &str)| {
        (t.to_string(), (s.foreground.r, s.foreground.g, s.foreground.b))
    };
    let color = |line: &String| {
        let mut h = HighlightLines::new(syntax, &themes[theme]);
        h.highlight_line(line, &syntaxes).ok().map(|v| v.into_iter().map(token).collect())
    };
    lines.iter().map(color).collect()
}

/// The text that an optional string slice holds.
pub open spec fn slice_in(s: Option<&str>) -> Option<Seq<char>> {
    match s {
        Some(t) => Some(t@),
        None => None,
    }
}

/// The tokens for the pieces of a line; the line in white where it could not be
/// read.
pub open spec fn tokens_for(pieces: Option<Seq<(Seq<char>, (u8, u8, u8))>>, line: Seq<char>) -> Seq<
    (Seq<char>, Color),
> {
    match pieces {
        Some(v) => v.map_values(
            |t: (Seq<char>, (u8, u8, u8))| (t.0, Color::Rgb(t.1.0, t.1.1, t.1.2)),
        ),
        None => seq![(line, Color::White)],
    }
}

/// The tokens for the pieces of a line; the line in white where it could not be
/// read.
pub fn tokens(pieces: &Option<Vec<RawToken>>, line: &str) -> (r: Vec<Token>)
    ensures
        token_models(r@) == tokens_for(raw_models(*pieces), line@),
{
    let mut r: Vec<Token> = Vec::new();
    match pieces {
        Some(v) => {
            let mut i: usize = 0;
            while i < v.len()
                invariant
                    i <= v@.len(),
                    r@.len() == i,
                    forall|j: int|
                        0 <= j < i ==> (#[trigger] r@[j]).0@ == v@[j].0@ && r@[j].1 == Color::Rgb(
                            v@[j].1.0,
                            v@[j].1.1,
                            v@[j].1.2,
                        ),
                decreases v@.len() - i,
            {
                let t = &v[i];
                let (red, green, blue) = t.1;
                r.push((t.0.clone(), Color::Rgb(red, green, blue)));
                i += 1;
            }
            assert(token_models(r@) =~= tokens_for(raw_models(*pieces), line@));
        },
        None => {
            r.push((line.to_string(), Color::White));
            assert(token_models(r@) =~= tokens_for(raw_models(*pieces), line@));
        },
    }
    r
}

/// The extension of a file; empty where it has none.
pub open spec fn extension_or_empty(path: Seq<char>) -> Seq<char> {
    match extension(path) {
        Some(e) => e,
        None => Seq::empty(),
    }
}

/// The extension whose syntax a file is colored by: its own, if there is a syntax
/// for it; else none, and the file is plain text.
pub open spec fn syntax_of(path: Seq<char>) -> Option<Seq<char>> {
    if is_known(extension_or_empty(path)) { Some(extension_or_empty(path)) } else { None }
}

/// The extension whose syntax a file is colored by, of which it is told whether
/// there is a syntax for it.
pub fn choose_syntax(extension: &str, known: bool) -> (r: Option<&str>)
    ensures
        slice_in(r) == (if known { Some(extension@) } else { None }),
{
    if known {
        Some(extension)
    } else {
        None
    }
}

/// The tokens of a line of the file `path`, in a theme.
pub open spec fn line_tokens(line: Seq<char>, path: Seq<char>, theme: Seq<char>) -> Seq<(Seq<char>, Color)> {
    tokens_for(colored(line, syntax_of(path), theme), line)
}

/// The texts of tokens.
pub open spec fn token_texts(v: Seq<(Seq<char>, Color)>) -> Seq<Seq<char>> {
    v.map_values(|t: (Seq<char>, Color)| t.0)
}

impl Highlighter {
    /// The tokens of each of the lines of the file `file_path`. Those of a line make
    /// up the line.
    pub fn highlight_lines(&self, lines: &[String], file_path: &str) -> (r: Vec<Vec<Token>>)
        requires
            self.wf(),
        ensures
            r@.len() == lines@.len(),
            forall|i: int|
                0 <= i < r@.len() ==> token_models((#[trigger] r@[i])@) == line_tokens(
                    lines@[i]@,
                    file_path@,
                    self.theme(),
                ),
            forall|i: int|
                0 <= i < r@.len() ==> concatenated(token_texts(token_models((#[trigger] r@[i])@)))
                    == lines@[i]@,
    {
        let ext = match file_extension(file_path) {
            Some(e) => e,
            None => {
                let e = String::new();
                assert(e@ =~= Seq::empty());
                e
            },
        };
        let syntax = choose_syntax(ext.as_str(), has_syntax(ext.as_str()));
        let pieces = color_lines(lines, syntax, self.theme_name.as_str());
        let mut r: Vec<Vec<Token>> = Vec::new();
        let mut i: usize = 0;
        while i < lines.len()
            invariant
                slice_in(syntax) == syntax_of(file_path@),
                pieces@.len() == lines@.len(),
                forall|i: int|
                    0 <= i < pieces@.len() ==> raw_models(#[trigger] pieces@[i]) == colored(
                        lines@[i]@,
                        slice_in(syntax),
                        self.theme(),
                    ),
                forall|i: int|
                    0 <= i < pieces@.len() ==> (raw_models(#[trigger] pieces@[i]) matches Some(v)
                        ==> concatenated(piece_texts(v)) == lines@[i]@),
                i <= lines@.len(),
                r@.len() == i,
                forall|j: int|
                    0 <= j < i ==> token_models((#[trigger] r@[j])@) == line_tokens(
                        lines@[j]@,
                        file_path@,
                        self.theme(),
                    ),
                forall|j: int|
                    0 <= j < i ==> concatenated(token_texts(token_models((#[trigger] r@[j])@)))
                        == lines@[j]@,
            decreases lines@.len() - i,
        {
            let line = tokens(&pieces[i], lines[i].as_str());
            proof {
                let p = raw_models(pieces@[i as int]);
                match p {
                    Some(v) => {
                        assert(token_texts(token_models(line@)) =~= piece_texts(v));
                    },
                    None => {
                        let t = token_texts(token_models(line@));
                        assert(t =~= seq![lines@[i as int]@]);
                        assert(t.drop_last() =~= Seq::empty());
                        assert(concatenated(t.drop_last()) =~= Seq::<char>::empty());
                        assert(concatenated(t) =~= lines@[i as int]@);
                    },
                }
            }
            r.push(line);
            i += 1;
        }
        r
    }

    /// The tokens of a line of the file `file_path`.
    pub fn highlight_line(&self, content: &str, file_path: &str) -> (r: Vec<Token>)
        requires
            self.wf(),
        ensures
            token_models(r@) == line_tokens(content@, file_path@, self.theme()),
            concatenated(token_texts(token_models(r@))) == content@,
    {
        let lines = vec![content.to_string()];
        let mut all = self.highlight_lines(lines.as_slice(), file_path);
        assert(lines@[0]@ == content@);
        assert(token_models(all@[0]@) == line_tokens(lines@[0]@, file_path@, self.theme()));
        all.remove(0)
    }
}

// ---- What themes promise -----------------------------------------------------

/// Cycling goes to the theme that comes next in the list, from the last to the first, if
/// the highlighter comes with it; else the theme stays.
pub proof fn themes_are_cycled(i: int)
    requires
        0 <= i < theme_list().len(),
        forall|j: int| 0 <= j < i ==> #[trigger] theme_list()[j] != theme_list()[i],
    ensures
        ({
            let all = theme_list();
            let next = if i + 1 < all.len() { all[i + 1] } else { all[0] };
            next_theme(all[i]) == (if is_bundled(next) { next } else { all[i] })
        }),
{
    lemma_theme_place(theme_list(), i, 0);
}

proof fn lemma_theme_place(all: Seq<Seq<char>>, i: int, from: int)
    requires
        0 <= from <= i < all.len(),
        forall|j: int| 0 <= j < i ==> #[trigger] all[j] != all[i],
    ensures
        crate::app::place_of(all, all[i], from) == Some(i),
    decreases i - from,
{
    if from < i {
        assert(all[from] != all[i]);
        lemma_theme_place(all, i, from + 1);
    }
}

}

//! The bottom line of the viewer.

use super::search::{SearchMode, SearchModel, SearchState};
use crate::number::{decimal, push_decimal};
use crate::screen::greatest;
use crate::style::{in_color, plain, styled, BOLD, Color, Line, Span, SpanModel, Style};
use crate::text::push_text;
use vstd::prelude::*;

verus! {

pub struct StatusBar;

/// The prompt of a search.
pub open spec fn prompt(mode: SearchMode) -> Seq<char> {
    match mode {
        SearchMode::Filename => "File search: "@,
        SearchMode::Content => "Search: "@,
    }
}

/// Which match is shown of how many: nothing while the query is empty.
pub open spec fn indicator(search: SearchModel) -> Seq<char> {
    if search.query.len() == 0 {
        " "@
    } else {
        " ["@ + decimal((search.current_match + 1) as nat) + "/"@ + decimal(
            greatest(search.filename_matches.len() as int, 1) as nat,
        ) + "]"@
    }
}

/// The line of a search: the prompt, the query and which match is shown.
pub open spec fn search_line(search: SearchModel) -> Seq<SpanModel> {
    seq![
        styled(prompt(search.mode), Style { fg: Some(Color::Yellow), add: BOLD, ..plain() }),
        styled(search.query, in_color(Color::White)),
        styled(indicator(search), in_color(Color::Yellow)),
    ]
}

/// The keys, with the settings that they change.
pub open spec fn keys_line(
    layout: Seq<char>,
    focused: Seq<char>,
    show_sidebar: bool,
    theme: Seq<char>,
) -> Seq<SpanModel> {
    seq![
        styled(
            " q:quit | jk/↓↑:nav | hl/←→:scroll | s:"@ + (if show_sidebar {
                "s:hide-list"@
            } else {
                "s:show-list"@
            }) + " | t:"@ + theme + " | /:search | F:file | L:lines | v:"@ + layout + "("@ + focused
                + ")"@,
            Style { fg: Some(Color::White), bg: Some(Color::DarkGray), ..plain() },
        ),
    ]
}

/// The style of the whole line.
pub open spec fn bar_style(active: bool) -> Style {
    if active {
        Style { bg: Some(Color::DarkGray), ..plain() }
    } else {
        plain()
    }
}

fn draw_indicator(search: &SearchState) -> (r: String)
    ensures
        r@ == indicator(search@),
{
    if search.query.as_str().is_empty() {
        " ".to_string()
    } else {
        let count = if search.filename_matches.len() >= 1 {
            search.filename_matches.len()
        } else {
            1
        };
        let mut r = " [".to_string();
        push_decimal(&mut r, search.current_match as u128 + 1);
        push_text(&mut r, "/");
        push_decimal(&mut r, count as u128);
        push_text(&mut r, "]");
        r
    }
}

impl StatusBar {
    /// The line and its style: the search while there is one, else the keys.
    pub fn render(search: &SearchState, layout: &str, focused: &str, show_sidebar: bool, theme: &str) -> (r: (
        Line,
        Style,
    ))
        ensures
            r.0@ == (if search@.active {
                search_line(search@)
            } else {
                keys_line(layout@, focused@, show_sidebar, theme@)
            }),
            r.1 == bar_style(search@.active),
    {
        if search.active {
            let text = match search.mode {
                SearchMode::Filename => "File search: ".to_string(),
                SearchMode::Content => "Search: ".to_string(),
            };
            let bold = Style {
                fg: Some(Color::Yellow),
                bg: None,
                underline: None,
                add: BOLD,
                sub: 0,
            };
            let mut line = Line::of(Span::styled(text, bold));
            line.push(Span::styled(search.query.clone(), Style::fg(Color::White)));
            line.push(Span::styled(draw_indicator(search), Style::fg(Color::Yellow)));
            assert(line@ =~= search_line(search@));
            (line, Style::bg(Color::DarkGray))
        } else {
            let mut text = " q:quit | jk/↓↑:nav | hl/←→:scroll | s:".to_string();
            push_text(
                &mut text,
                if show_sidebar {
                    "s:hide-list"
                } else {
                    "s:show-list"
                },
            );
            push_text(&mut text, " | t:");
            push_text(&mut text, theme);
            push_text(&mut text, " | /:search | F:file | L:lines | v:");
            push_text(&mut text, layout);
            push_text(&mut text, "(");
            push_text(&mut text, focused);
            push_text(&mut text, ")");
            let style = Style {
                fg: Some(Color::White),
                bg: Some(Color::DarkGray),
                underline: None,
                add: 0,
                sub: 0,
            };
            (Line::of(Span::styled(text, style)), Style::plain())
        }
    }
}

}

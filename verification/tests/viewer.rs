use runk::cli::{watch_paths, Cli, Command, Source, WatchPath};
use runk::config::Config;
use runk::diff::{parse_unified_diff, DiffLine, DiffLineType, FileDiff, Hunk};
use runk::external::{
    edit_command, first_path, lazygit_args, list_files_args, locate, pick_file_args, picked_path, printed_path,
    relativize, reload_search_args, search_diff, search_hit, shell_quote, yazi_args,
};
use runk::render::{
    ansi_to_text, bat_args, content_text, delta_args, diff_text, has_changes, plain_text, styled_lines, AnsiSpan,
};
use runk::screen::{centered_rect, contains, layout, Rect};
use runk::style::{parse_color, Color, Line, Style, BOLD, ITALIC};
use runk::ui::diff_view::{draw_line, DiffView};
use runk::ui::highlight::{choose_syntax, themes, tokens, Highlighter};
use runk::ui::search::{SearchMode, SearchState};
use runk::ui::sidebar::{can_show, clamp_scroll, Sidebar};
use runk::ui::status_bar::StatusBar;

fn text(line: &Line) -> String {
    line.spans.iter().map(|s| s.content.as_str()).collect()
}

fn file(path: &str) -> FileDiff {
    let patch = format!("diff --git a/{path} b/{path}\n@@ -1,2 +1,3 @@\n a\n-b\n+c\n+d\n");
    parse_unified_diff(&patch).unwrap().remove(0)
}

#[test]
fn file_names_are_searched_in_any_case() {
    let mut s = SearchState::new();
    assert!(!s.active);
    s.start(SearchMode::Filename);
    s.update_filename_matches(&["src/Main.rs", "README", "main.c"]);
    assert_eq!(s.filename_matches, vec![0, 1, 2]);
    for c in "MAINx".chars() {
        s.push_char(c);
    }
    s.pop_char();
    s.current_match = 2;
    s.update_filename_matches(&["src/Main.rs", "README", "main.c"]);
    assert_eq!(s.filename_matches, vec![0, 2]);
    assert_eq!(s.current_match, 0);
    s.clear();
    assert!(!s.active && s.query.is_empty() && s.filename_matches.is_empty());
    s.pop_char();
    assert_eq!(s.query, "");
}

#[test]
fn sidebar_lists_files_with_their_counts() {
    let sidebar = Sidebar::new();
    let search = SearchState::new();
    let files = vec![file("a.rs"), file("b.rs")];
    let (lines, scroll) = sidebar.render(30, 10, &files, &search);
    assert_eq!(text(&lines[0]), " Files (2) ");
    assert!(lines[1].spans.is_empty());
    assert_eq!(text(&lines[2]), format!("+2 -1 a.rs{}", " ".repeat(16)));
    assert_eq!(lines[2].spans[2].style.bg, Some(Color::White));
    assert_eq!(lines[3].spans[0].style, Style::fg(Color::Green));
    assert_eq!(lines[3].spans[2].style, Style::fg(Color::Gray));
    assert_eq!(scroll, 0);
}

#[test]
fn sidebar_marks_matches_while_names_are_searched() {
    let sidebar = Sidebar { selected_index: 0, scroll_offset: 9 };
    let mut search = SearchState::new();
    search.start(SearchMode::Filename);
    search.push_char('r');
    search.update_filename_matches(&["a.rs", "b.rs", "c"]);
    search.current_match = 1;
    let files = vec![file("a.rs"), file("b.rs"), file("c")];
    let (lines, scroll) = sidebar.render(30, 5, &files, &search);
    assert_eq!(lines[2].spans[2].style, Style::fg(Color::Yellow));
    assert_eq!(lines[3].spans[2].style.fg, Some(Color::Black));
    assert_eq!(lines[4].spans[2].style, Style::fg(Color::Gray));
    assert_eq!(scroll, 2);
    assert_eq!(clamp_scroll(5, 1, 9), 5);
}

#[test]
fn wide_characters_take_two_columns() {
    let files = vec![file("漢字.rs")];
    let (lines, _) = Sidebar::new().render(30, 10, &files, &SearchState::new());
    assert_eq!(lines[2].spans[3].content.len(), 30 - 7 - 10);
}

#[test]
fn long_paths_are_cut_at_the_front() {
    let path = format!("{}/end.rs", "d".repeat(60));
    let (lines, _) = Sidebar::new().render(80, 10, &[file(&path)], &SearchState::new());
    assert_eq!(lines[2].spans[2].content, format!("...{}/end.rs", "d".repeat(40)));
    assert!(can_show(&path));
    assert!(can_show(&"é".repeat(25)));
    assert!(!can_show(&"é".repeat(26)));
}

#[test]
fn status_bar_shows_the_search_or_the_keys() {
    let mut search = SearchState::new();
    let (line, style) = StatusBar::render(&search, "split", "left", true, "base16-ocean.dark");
    assert_eq!(
        text(&line),
        " q:quit | jk/↓↑:nav | hl/←→:scroll | s:s:hide-list | t:base16-ocean.dark | /:search | F:file | L:lines | v:split(left)"
    );
    assert_eq!(style, Style::plain());
    search.start(SearchMode::Content);
    let (line, style) = StatusBar::render(&search, "", "", false, "");
    assert_eq!(text(&line), "Search:  ");
    assert_eq!(style, Style::bg(Color::DarkGray));
    search.start(SearchMode::Filename);
    search.push_char('x');
    let (line, _) = StatusBar::render(&search, "", "", false, "");
    assert_eq!(text(&line), "File search: x [1/1]");
    assert_eq!(line.spans[0].style.add, BOLD);
}

#[test]
fn hits_are_marked_in_tokens() {
    let mut search = SearchState::new();
    let tokens = vec![("Foo bar foo".to_string(), Color::Red), ("x".to_string(), Color::Blue)];
    let plain = DiffView::build_spans(&tokens, &search).unwrap();
    assert_eq!(plain.len(), 2);
    search.start(SearchMode::Content);
    for c in "FOO".chars() {
        search.push_char(c);
    }
    let spans = DiffView::build_spans(&tokens, &search).unwrap();
    let shown: Vec<(&str, Option<Color>)> =
        spans.iter().map(|s| (s.content.as_str(), s.style.bg)).collect();
    assert_eq!(
        shown,
        vec![("Foo", Some(Color::Yellow)), (" bar ", None), ("foo", Some(Color::Yellow)), ("x", None)]
    );
    assert_eq!(spans[1].style, Style::fg(Color::Red));
    // Offsets in the lower-case text may not fall between characters of the text.
    let odd = vec![("İİ".to_string(), Color::Red)];
    let mut search = SearchState::new();
    search.start(SearchMode::Content);
    search.push_char('\u{307}');
    assert!(DiffView::build_spans(&odd, &search).is_none());
}

#[test]
fn diff_rows_show_numbers_marks_and_text() {
    let view = DiffView::new();
    let highlighter = Highlighter::new();
    let diff = FileDiff {
        path: "n.txt".to_string(),
        old_path: None,
        hunks: vec![Hunk {
            header: "@@ -9,1 +10,2 @@".to_string(),
            lines: vec![
                DiffLine {
                    kind: DiffLineType::Context,
                    old_line: Some(9),
                    new_line: Some(12345),
                    content: "a\tb".to_string(),
                },
                DiffLine { kind: DiffLineType::Add, old_line: None, new_line: Some(11), content: "c".to_string() },
                DiffLine { kind: DiffLineType::Remove, old_line: Some(7), new_line: None, content: "".to_string() },
            ],
        }],
    };
    let (lines, scroll) =
        view.render(4, &diff, &SearchState::new(), true, &highlighter).unwrap();
    let shown: Vec<String> = lines.iter().map(text).collect();
    assert_eq!(
        shown,
        vec![
            " n.txt [+1-1] ",
            "",
            "@@ -9,1 +10,2 @@",
            "   9 12345  a    b",
            "     11   +c",
            "   7      -",
        ]
    );
    assert_eq!(scroll, 0);
    let scrolled = DiffView { scroll_offset: 99, h_scroll: 0 };
    let (lines, scroll) = scrolled.render(4, &diff, &SearchState::new(), false, &highlighter).unwrap();
    assert_eq!(text(&lines[4]), "+c");
    assert_eq!(scroll, 4);
    let row = draw_line(
        &diff.hunks[0].lines[1],
        &[("c".to_string(), Color::White)],
        &SearchState::new(),
        false,
    )
    .unwrap();
    assert_eq!(row.spans[0].style, Style::fg(Color::Green));
}

#[test]
fn highlighter_colors_by_extension() {
    let highlighter = Highlighter::new();
    assert_eq!(highlighter.theme_name(), "base16-ocean.dark");
    let colored = highlighter.highlight_line("let x = 1;", "dir.d/a.rs");
    assert!(colored.len() > 1);
    let all: String = colored.iter().map(|t| t.0.as_str()).collect();
    assert_eq!(all, "let x = 1;");
    let plain = highlighter.highlight_line("let x = 1;", "dir.rs/noextension");
    assert_eq!(plain, vec![("let x = 1;".to_string(), Color::Rgb(192, 197, 206))]);
    let unknown = highlighter.highlight_line("let x = 1;", "a.nosuchsyntax");
    assert_eq!(unknown, plain);
    assert_eq!(choose_syntax("rs", true), Some("rs"));
    assert_eq!(choose_syntax("rs", false), None);
    assert_eq!(tokens(&None, "x"), vec![("x".to_string(), Color::White)]);
    assert_eq!(
        tokens(&Some(vec![("y".to_string(), (1, 2, 3))]), "y"),
        vec![("y".to_string(), Color::Rgb(1, 2, 3))]
    );
}

#[test]
fn theme_stays_where_the_next_one_is_not_bundled() {
    let mut highlighter = Highlighter::new();
    highlighter.cycle_theme();
    assert_eq!(themes()[1], "Monokai Extended");
    assert_eq!(highlighter.theme_name(), "base16-ocean.dark");
}

#[test]
fn project_settings_override_some_of_the_user() {
    let mut user = Config::default();
    user.theme = Some("dark".to_string());
    user.watch = Some(true);
    user.line_numbers = Some(false);
    let mut project = Config::default();
    project.theme = Some("light".to_string());
    project.watch = Some(false);
    project.vcs = Some("hg".to_string());
    project.menu_bar = Some(true);
    let both = Config::load(Some(user.clone()), Some(project.clone()));
    assert_eq!(both.theme.as_deref(), Some("light"));
    assert_eq!(both.watch, Some(true));
    assert_eq!(both.vcs, None);
    assert_eq!(both.line_numbers, Some(false));
    assert_eq!(both.menu_bar, Some(true));
    assert_eq!(Config::load(Some(user), None).theme.as_deref(), Some("dark"));
    assert_eq!(Config::load(None, Some(project)).vcs, None);
    assert_eq!(Config::load(None, None).theme, None);
}

#[test]
fn commands_say_where_diffs_come_from() {
    let source = |command: Command| Cli { command }.source();
    let diff = |old: Option<&str>, new: Option<&str>, watch: bool, staged: bool| Command::Diff {
        old: old.map(str::to_string),
        new: new.map(str::to_string),
        watch,
        staged,
    };
    assert!(matches!(source(diff(Some("a"), Some("b"), false, true)), Source::Files { old, new } if old == "a" && new == "b"));
    assert!(matches!(source(diff(Some("a"), None, false, true)), Source::Repository { staged: true }));
    assert!(matches!(source(Command::Show { revision: None }), Source::Commit { revision } if revision == "HEAD"));
    assert!(matches!(source(Command::Patch { file: Some("-".to_string()) }), Source::Stdin));
    assert!(matches!(source(Command::Patch { file: Some("p".to_string()) }), Source::PatchFile { path } if path == "p"));
    assert!(matches!(source(Command::Pager), Source::Stdin));
    assert!(Cli { command: diff(None, None, true, false) }.watches());
    assert!(!Cli { command: Command::Pager }.watches());
}

#[test]
fn directories_of_files_are_watched() {
    let paths = watch_paths(&[file("src/ui/a.rs"), file("top.rs")]);
    assert_eq!(paths.len(), 2);
    assert!(matches!(&paths[0], WatchPath::Directory { path } if path == "src/ui"));
    assert!(matches!(&paths[1], WatchPath::Here));
}

#[test]
fn selected_paths_are_made_relative() {
    assert_eq!(first_path("\n  \n  src/a.rs \nb\n").as_deref(), Some("src/a.rs"));
    assert_eq!(first_path(" \n"), None);
    assert_eq!(relativize("/repo", "/repo/src/a.rs"), "src/a.rs");
    assert_eq!(relativize("/repo", "/repository/a.rs"), "/repository/a.rs");
    assert_eq!(relativize("/repo", "src/a.rs"), "src/a.rs");
    assert_eq!(picked_path("/repo", "/repo/x\n").as_deref(), Some("x"));
    assert_eq!(printed_path("/repo", b"y\n").as_deref(), Some("y"));
    assert_eq!(printed_path("/repo", b""), None);
    assert_eq!(locate("/repo", "a"), "/repo/a");
    assert_eq!(locate("/repo", "/etc/a"), "/etc/a");
}

#[test]
fn hits_are_read_from_the_first_line() {
    let hit = search_hit("/repo", b"/repo/a.rs:12:3:text: more\nb:1:1:x\n").unwrap();
    assert_eq!((hit.path.as_str(), hit.line), ("a.rs", Some(12)));
    let hit = search_hit("/repo", b"a.rs").unwrap();
    assert_eq!(hit.line, None);
    assert!(search_hit("/repo", b"").is_none());
    assert!(search_hit("/repo", b"\na:1").is_none());
    assert!(search_hit("/repo", b":1:1:x").is_none());
}

#[test]
fn commands_are_quoted_and_put_together() {
    assert_eq!(shell_quote("it's"), "'it'\\''s'");
    assert_eq!(
        search_diff("/tmp/i x"),
        "rg --color=always --smart-case --no-line-number --no-filename -- {q} '/tmp/i x' || true"
    );
    let args = reload_search_args("cmd");
    assert_eq!(args.len(), 10);
    assert_eq!(args[6], "--bind=start:reload:cmd");
    assert_eq!(args[7], "--bind=change:reload:sleep 0.05; cmd");
    assert_eq!(list_files_args().join(" "), "--files --hidden --glob !.git");
    assert_eq!(pick_file_args()[0], "--prompt=file> ");
    assert_eq!(yazi_args("/r", "/t").join(" "), "/r --chooser-file=/t");
    assert_eq!(lazygit_args("/r").join(" "), "--path /r");
    assert_eq!(edit_command(None, None, "f", None).join(" "), "vi f");
    assert_eq!(edit_command(None, Some("code -w"), "f", Some(3)).join(" "), "code -w +3 f");
    assert_eq!(edit_command(Some("hx"), Some("vi"), "f", Some(3)).join(" "), "hx +3 f");
    assert_eq!(edit_command(Some("  "), None, "f", None).join(" "), "vi f");
}

#[test]
fn renderers_are_asked_with_these_arguments() {
    assert_eq!(
        delta_args(80, false, false).join(" "),
        "--paging=never --line-numbers --width 80 --wrap-max-lines 0"
    );
    assert_eq!(
        delta_args(9, true, true).join(" "),
        "--paging=never --line-numbers --width 9 --wrap-max-lines unlimited --side-by-side"
    );
    assert_eq!(
        bat_args("f", 70, true).join(" "),
        "--color=always --style=numbers,changes --paging=never --wrap auto --terminal-width 70 f"
    );
}

#[test]
fn escape_sequences_become_styles() {
    let lines = ansi_to_text(b"plain \x1b[1;31mred\x1b[0m\n\x1b[38;2;1;2;3mrgb\x1b[48;5;9m!\n");
    assert_eq!(lines.len(), 2);
    assert_eq!(text(&lines[0]), "plain red");
    assert_eq!(lines[0].spans[1].style.fg, Some(Color::Red));
    assert_eq!(lines[0].spans[1].style.add, BOLD);
    assert_eq!(lines[1].spans[0].style.fg, Some(Color::Rgb(1, 2, 3)));
    assert_eq!(lines[1].spans[1].style.bg, Some(Color::Indexed(9)));
    let fallback = styled_lines(&None, b"a\n\xffb\n");
    assert_eq!(fallback.iter().map(text).collect::<Vec<_>>(), vec!["a", "\u{fffd}b"]);
    let given = AnsiSpan {
        content: "x".to_string(),
        fg: Some("LightCyan".to_string()),
        bg: None,
        underline: Some("Reset".to_string()),
        add: ITALIC,
        sub: 1,
    };
    let styled = styled_lines(&Some(vec![vec![given]]), b"");
    assert_eq!(
        styled[0].spans[0].style,
        Style { fg: Some(Color::LightCyan), bg: None, underline: Some(Color::Reset), add: ITALIC, sub: 1 }
    );
}

#[test]
fn colors_are_read_by_name() {
    assert_eq!(parse_color("DarkGray"), Some(Color::DarkGray));
    assert_eq!(parse_color("#0A10FF"), Some(Color::Rgb(10, 16, 255)));
    assert_eq!(parse_color("255"), Some(Color::Indexed(255)));
    assert_eq!(parse_color("256"), None);
    assert_eq!(parse_color("#0a10ff"), None);
    assert_eq!(parse_color(""), None);
}

#[test]
fn patching_lays_one_style_over_another() {
    let base = Style { fg: Some(Color::Red), bg: Some(Color::Blue), underline: None, add: BOLD, sub: ITALIC };
    let over = Style { fg: Some(Color::Green), bg: None, underline: None, add: ITALIC, sub: BOLD };
    assert_eq!(
        base.patch(over),
        Style { fg: Some(Color::Green), bg: Some(Color::Blue), underline: None, add: ITALIC, sub: BOLD }
    );
    assert_eq!(base.patch(Style::plain()), base);
}

#[test]
fn diffs_and_contents_are_shown_or_explained() {
    let shown = |lines: Vec<Line>| lines.iter().map(text).collect::<Vec<_>>().join("|");
    assert!(!has_changes(" \n"));
    assert_eq!(shown(diff_text(" \n", &Ok(b"x".to_vec()))), "No changes.");
    assert_eq!(shown(diff_text("d", &Ok(b"x\ny".to_vec()))), "x|y");
    assert_eq!(shown(diff_text("d", &Err("gone".to_string()))), "delta error: gone");
    assert_eq!(shown(content_text("f", true, &Ok(b"x".to_vec()))), "x");
    assert_eq!(shown(content_text("f", true, &Err("gone".to_string()))), "bat error: gone");
    assert_eq!(shown(content_text("f", false, &Ok(Vec::new()))), "File not found: f");
    assert_eq!(plain_text("").len(), 1);
    assert_eq!(plain_text("a\n\nb\n").len(), 3);
}

#[test]
fn rectangles_hold_cells_and_are_centered() {
    let area = Rect { x: 2, y: 3, width: 10, height: 5 };
    assert!(contains(area, 2, 3) && contains(area, 11, 7));
    assert!(!contains(area, 12, 7) && !contains(area, 11, 8) && !contains(area, 1, 3));
    assert!(contains(Rect { x: 65535, y: 0, width: 1, height: 1 }, 65535, 0));
    assert_eq!(centered_rect(4, 2, area), Rect { x: 5, y: 4, width: 4, height: 2 });
    assert_eq!(centered_rect(40, 20, area), area);
}

#[test]
fn screen_is_split_into_list_preview_and_footer() {
    let screen = Rect { x: 0, y: 0, width: 80, height: 24 };
    let (list, preview, footer) = layout(screen, true, 30);
    assert_eq!(list, Rect { x: 0, y: 0, width: 30, height: 23 });
    assert_eq!(preview, Rect { x: 30, y: 0, width: 50, height: 23 });
    assert_eq!(footer, Rect { x: 0, y: 23, width: 80, height: 1 });
    let (list, preview, _) = layout(screen, false, 30);
    assert_eq!(list.width, 0);
    assert_eq!(preview, Rect { x: 0, y: 0, width: 80, height: 23 });
    let moved = Rect { x: 7, y: 9, width: 80, height: 24 };
    let (list, preview, footer) = layout(moved, true, 30);
    assert_eq!(list, Rect { x: 7, y: 9, width: 30, height: 23 });
    assert_eq!(preview, Rect { x: 37, y: 9, width: 50, height: 23 });
    assert_eq!(footer, Rect { x: 7, y: 32, width: 80, height: 1 });
}

#[test]
fn narrow_screens_keep_a_column_and_a_row_for_the_preview() {
    for (width, left) in [(0u16, 0u16), (0, 24), (1, 0), (1, 1), (1, 24), (10, 9), (10, 10), (10, 24), (65535, 40000), (65535, 65535)] {
        for height in [0u16, 1, 2, 3, 65535] {
            let screen = Rect { x: 0, y: 0, width, height };
            let (list, preview, footer) = layout(screen, true, left);
            let low = if height > 1 { 1 } else { 0 };
            let side = left.min(width.saturating_sub(1));
            assert_eq!(footer, Rect { x: 0, y: height - low, width, height: low });
            assert_eq!(list, Rect { x: 0, y: 0, width: side, height: height - low });
            assert_eq!(preview, Rect { x: side, y: 0, width: width - side, height: height - low });
        }
    }
}

use runk::app::{
    is_hidden_path, preview_source, App, CursorState, DiffMode, FileListMode, Focus, PreviewRequest, PreviewSource,
    SearchScope, Subject, TICK,
};
use runk::draw::{draw_help, draw_note_input};
use runk::events::{Effect, Key, Moment, MouseKind};
use runk::git::ChangedFile;
use runk::hunks::{analyze_hunks, clean_path, is_rule_line, parse_hunk_header, HunkMark};
use runk::input::InputState;
use runk::notebook::{FileContent, NoteBook, SaveAction};
use runk::notes::{Note, SelKind};
use runk::screen::Rect;
use runk::style::{Color, Line, Span, Style, BOLD, ITALIC, REVERSED, UNDERLINED};

fn strings(s: &[&str]) -> Vec<String> {
    s.iter().map(|s| s.to_string()).collect()
}

fn changed(path: &str, status: &str) -> ChangedFile {
    ChangedFile { path: path.to_string(), status: status.to_string() }
}

fn new_app() -> App {
    App::new(
        "/repo".to_string(),
        vec![changed("b.rs", " M"), changed(".hid", "??")],
        strings(&[".hid", "a.rs", "b.rs"]),
        &NoteBook::empty(),
        &[],
    )
    .0
}

fn raw(s: &str) -> Line {
    Line { spans: vec![Span::raw(s.to_string())] }
}

fn text(line: &Line) -> String {
    line.spans.iter().map(|s| s.content.as_str()).collect()
}

fn at(now: u64) -> Moment {
    Moment { now, id: 7, created_at: "2026-07-13T10:04:00Z".to_string() }
}

fn press(app: &mut App, key: Key) -> Option<Effect> {
    app.handle_key(key, false, &at(0))
}

fn chars(app: &mut App, s: &str) {
    for c in s.chars() {
        press(app, Key::Char(c));
    }
}

/// An application that annotates a file with the given content.
fn annotating(content: &str) -> App {
    let mut app = new_app();
    app.place(
        Rect { x: 0, y: 0, width: 20, height: 12 },
        Rect { x: 20, y: 0, width: 40, height: 12 },
    );
    app.open_path("a.rs".to_string(), None);
    press(&mut app, Key::Char('n'));
    app.render_annotate("a.rs", content, &[]);
    app
}

fn cursor(app: &App) -> (usize, usize) {
    let c = app.cursor.as_ref().unwrap();
    (c.line, c.col)
}

#[test]
fn hidden_path_detects_dot_prefixed_components() {
    assert!(is_hidden_path(".env"));
    assert!(is_hidden_path(".github/workflows/release.yml"));
    assert!(is_hidden_path("src/.generated/file.rs"));
    assert!(!is_hidden_path("src/main.rs"));
    assert!(!is_hidden_path("src/file.test.rs"));
}

#[test]
fn application_starts_at_the_project_root() {
    let app = new_app();
    assert_eq!(app.selected, Some(0));
    assert!(matches!(app.view, Subject::Home));
    assert!(app.needs_render && app.show_left && app.show_hidden);
    assert!(!app.quit && !app.annotate && !app.auto_refresh);
    assert_eq!(app.row_count(), 4);
    assert_eq!(app.selected_path(), None);
}

#[test]
fn list_moves_and_shows_files() {
    let mut app = new_app();
    press(&mut app, Key::Char('j'));
    assert_eq!(app.selected_path().as_deref(), Some(".hid"));
    press(&mut app, Key::Char('G'));
    assert_eq!(app.selected_path().as_deref(), Some("b.rs"));
    press(&mut app, Key::Down);
    assert_eq!(app.selected, Some(3));
    press(&mut app, Key::Char('k'));
    assert!(matches!(&app.view, Subject::File { path, line: None } if path == "a.rs"));
    press(&mut app, Key::Char('g'));
    assert!(matches!(app.view, Subject::Home));
    press(&mut app, Key::Up);
    assert_eq!(app.selected, Some(0));
}

#[test]
fn toggles_keep_the_selected_file() {
    let mut app = new_app();
    app.open_path("b.rs".to_string(), None);
    assert_eq!(app.selected, Some(3));
    press(&mut app, Key::Char('.'));
    assert_eq!(app.message, "hidden files: hidden");
    assert_eq!(app.selected, Some(2));
    press(&mut app, Key::Char('C'));
    assert_eq!(app.message, "files: Changes");
    assert_eq!(app.file_list_mode, FileListMode::Changes);
    assert_eq!(app.selected_path().as_deref(), Some("b.rs"));
    assert_eq!(app.visible_file_count(), 1);
    press(&mut app, Key::Char('.'));
    assert_eq!(app.message, "hidden files: shown");
    assert_eq!(app.visible_path(1).as_deref(), Some(".hid"));
    assert_eq!(app.visible_position("zzz"), None);
    // A file that is not listed any more gives way to the project root.
    app.open_path("a.rs".to_string(), None);
    assert_eq!(app.selected, None);
    press(&mut app, Key::Char('C'));
    assert_eq!(app.selected, Some(0));
}

#[test]
fn switches_say_what_they_did() {
    let mut app = new_app();
    press(&mut app, Key::Char('W'));
    assert_eq!(app.message, "wrap: on");
    press(&mut app, Key::Char('R'));
    assert_eq!(app.message, "auto-refresh: on");
    press(&mut app, Key::Char('2'));
    assert_eq!(app.message, "diff: side-by-side");
    assert!(app.side_by_side());
    press(&mut app, Key::Char('1'));
    assert!(!app.side_by_side());
    press(&mut app, Key::Char('3'));
    assert_eq!(app.diff_mode, DiffMode::Auto);
    app.preview_width = 119;
    assert!(!app.side_by_side());
    app.preview_width = 120;
    assert!(app.side_by_side());
    press(&mut app, Key::Char('S'));
    assert!(!app.show_left && app.focus == Focus::Right);
    press(&mut app, Key::Char('h'));
    assert!(app.focus == Focus::Right);
    press(&mut app, Key::Char('S'));
    assert!(app.show_left && app.focus == Focus::Left);
    press(&mut app, Key::Char('l'));
    assert!(app.focus == Focus::Right);
}

#[test]
fn leaving_takes_ctrl_d_or_two_ctrl_c() {
    let mut app = new_app();
    app.handle_key(Key::Char('d'), true, &at(0));
    assert!(app.quit);

    let mut app = new_app();
    app.handle_key(Key::Char('c'), true, &at(5));
    assert_eq!(app.message, "Press Ctrl+C again to exit (or Ctrl+D)");
    assert!(!app.quit);
    app.handle_key(Key::Char('C'), true, &at(5 + 1_999_999_999));
    assert!(app.quit);

    let mut app = new_app();
    app.handle_key(Key::Char('c'), true, &at(5));
    app.handle_key(Key::Char('c'), true, &at(5 + 2_000_000_000));
    assert!(!app.quit);

    let mut app = new_app();
    app.handle_key(Key::Char('c'), true, &at(5));
    press(&mut app, Key::Char('j'));
    assert_eq!(app.message, "");
    app.handle_key(Key::Char('c'), true, &at(6));
    assert!(!app.quit);
    assert!(matches!(app.handle_key(Key::Char('z'), true, &at(7)), Some(Effect::Suspend)));
}

#[test]
fn help_is_shown_and_dismissed_by_any_key() {
    let mut app = new_app();
    press(&mut app, Key::Char('?'));
    assert!(app.show_help);
    press(&mut app, Key::Char('j'));
    assert!(!app.show_help);
    assert_eq!(app.selected, Some(0));
    press(&mut app, Key::Char('?'));
    press(&mut app, Key::Char('?'));
    assert!(!app.show_help);
}

#[test]
fn preview_scrolls_within_its_rows() {
    let mut app = new_app();
    app.place(
        Rect { x: 0, y: 0, width: 20, height: 7 },
        Rect { x: 20, y: 0, width: 30, height: 7 },
    );
    assert_eq!((app.preview_width, app.preview_height), (28, 5));
    app.show_preview((0..12).map(|n| raw(&n.to_string())).collect(), false);
    app.focus = Focus::Right;
    press(&mut app, Key::Char('j'));
    assert_eq!(app.scroll, 1);
    press(&mut app, Key::PageDown);
    assert_eq!(app.scroll, 6);
    press(&mut app, Key::Char(' '));
    assert_eq!(app.scroll, 7);
    press(&mut app, Key::PageUp);
    assert_eq!(app.scroll, 2);
    press(&mut app, Key::Char('G'));
    assert_eq!(app.scroll, 7);
    press(&mut app, Key::Char('g'));
    assert_eq!(app.scroll, 0);
    press(&mut app, Key::Char('k'));
    assert_eq!(app.scroll, 0);
    app.scroll_to_line(4);
    assert_eq!(app.scroll, 3);
    app.scroll_to_line(400);
    assert_eq!(app.scroll, 7);
}

fn rendered() -> Vec<Line> {
    let mut lines: Vec<Line> = Vec::new();
    for s in [
        "src/old.rs → src/new.rs",
        "────────",
        "──┐",
        "10: fn a()",
        "──┘",
        "x",
        "README.md",
        "────────",
        "──┐",
        "3:",
        "──┘",
        "y",
        "y",
        "y",
        "y",
    ] {
        lines.push(raw(s));
    }
    lines
}

#[test]
fn hunks_are_found_under_their_files() {
    let marks = analyze_hunks(&rendered());
    let found: Vec<_> = marks.iter().map(|m| (m.offset, m.path.as_deref(), m.line)).collect();
    assert_eq!(found, vec![(2, Some("src/new.rs"), 10), (8, Some("README.md"), 3)]);
    let c = |s: &str| s.chars().collect::<Vec<char>>();
    assert!(is_rule_line(&c("──")));
    assert!(!is_rule_line(&c("")));
    assert!(!is_rule_line(&c("─x")));
    assert_eq!(parse_hunk_header(&c("36: def foo():")), Some(36));
    assert_eq!(parse_hunk_header(&c("36 x")), None);
    assert_eq!(parse_hunk_header(&c(": x")), None);
    assert_eq!(parse_hunk_header(&c("99999999999999999999999:")), None);
    assert_eq!(clean_path(&c("a ⟶ b → c.rs ")), "c.rs");
    assert_eq!(clean_path(&c(" plain ")), "plain");
}

#[test]
fn hunks_are_walked_and_opened() {
    let mut app = new_app();
    app.place(
        Rect { x: 0, y: 0, width: 20, height: 6 },
        Rect { x: 20, y: 0, width: 30, height: 6 },
    );
    press(&mut app, Key::Char(']'));
    assert_eq!(app.message, "No hunks here.");
    press(&mut app, Key::Enter);
    assert_eq!(app.message, "No hunk selected.");
    assert!(press(&mut app, Key::Char('e')).is_none());
    assert_eq!(app.message, "Nothing to open here.");
    app.show_preview(rendered(), true);
    press(&mut app, Key::Char(']'));
    assert_eq!(app.scroll, 2);
    press(&mut app, Key::Char(']'));
    assert_eq!(app.scroll, 8);
    assert_eq!(app.current_hunk().unwrap().line, 3);
    press(&mut app, Key::Char('['));
    assert_eq!(app.scroll, 2);
    match press(&mut app, Key::Char('e')) {
        Some(Effect::Edit { path, line }) => {
            assert_eq!(path, "/repo/src/new.rs");
            assert_eq!(line, Some(10));
        }
        _ => panic!("the editor was asked for"),
    }
    press(&mut app, Key::Enter);
    assert!(matches!(&app.view, Subject::File { path, line: Some(10) } if path == "src/new.rs"));
    assert_eq!(app.selected, None);
    app.show_preview(rendered(), true);
    assert_eq!(app.scroll, 2 + 6);
}

#[test]
fn current_hunk_is_the_one_above_the_top() {
    let mut app = new_app();
    app.hunks = vec![
        HunkMark { offset: 4, path: None, line: 40 },
        HunkMark { offset: 9, path: Some("p".to_string()), line: 90 },
    ];
    assert_eq!(app.current_hunk().unwrap().line, 40);
    assert_eq!(app.editor_target(), None);
    app.scroll = 9;
    assert_eq!(app.editor_target(), Some(("p".to_string(), Some(90))));
}

#[test]
fn preview_source_follows_the_file() {
    let file = Subject::File { path: "a".to_string(), line: None };
    assert_eq!(preview_source(&Subject::Home, false, None, false), PreviewSource::ProjectDiff);
    assert_eq!(preview_source(&file, true, Some(true), true), PreviewSource::FileDiff);
    assert_eq!(preview_source(&file, true, Some(false), true), PreviewSource::Content);
    assert_eq!(preview_source(&file, true, None, true), PreviewSource::Content);
    assert_eq!(preview_source(&file, false, None, true), PreviewSource::UntrackedDiff);
    assert_eq!(preview_source(&file, false, None, false), PreviewSource::Content);
}

#[test]
fn all_but_contents_are_diffs() {
    assert!(PreviewSource::ProjectDiff.is_diff());
    assert!(PreviewSource::FileDiff.is_diff());
    assert!(PreviewSource::UntrackedDiff.is_diff());
    assert!(!PreviewSource::Content.is_diff());
}

#[test]
fn waiting_has_an_end_with_auto_refresh_only() {
    let mut app = new_app();
    assert_eq!(app.wait(), None);
    app.auto_refresh = true;
    assert_eq!(app.wait(), Some(TICK));
    assert_eq!(TICK, 750);
}

#[test]
fn preview_is_requested_for_the_view() {
    let mut app = new_app();
    assert!(matches!(app.preview_request(), PreviewRequest::Project));
    assert_eq!(app.render_width(), 20);
    app.open_path("a.rs".to_string(), None);
    assert!(matches!(app.preview_request(), PreviewRequest::File { path } if path == "a.rs"));
    press(&mut app, Key::Char('v'));
    assert!(matches!(app.preview_request(), PreviewRequest::Annotated { path } if path == "a.rs"));
    app.preview_width = 21;
    assert_eq!(app.render_width(), 21);
}

#[test]
fn tools_are_asked_for() {
    let mut app = new_app();
    assert!(matches!(press(&mut app, Key::Char('r')), Some(Effect::Reload)));
    assert!(matches!(press(&mut app, Key::Char('z')), Some(Effect::Lazygit)));
    assert!(matches!(press(&mut app, Key::Char('y')), Some(Effect::Yazi)));
    assert!(matches!(press(&mut app, Key::Char('f')), Some(Effect::PickFile)));
    match press(&mut app, Key::Char('s')) {
        Some(Effect::Search { targets, prompt, header }) => {
            assert!(targets.is_empty());
            assert_eq!((prompt.as_str(), header.as_str()), ("project> ", "all repository lines"));
        }
        _ => panic!("a search was asked for"),
    }
    assert!(press(&mut app, Key::Char('/')).is_none());
    assert_eq!(app.message, "Select a file first to search it.");
    app.file_list_mode = FileListMode::Changes;
    match app.search(SearchScope::Project) {
        Some(Effect::Search { targets, .. }) => assert_eq!(targets, vec!["b.rs", ".hid"]),
        _ => panic!("a search was asked for"),
    }
    app.reload(vec![], strings(&["a.rs"]), &[]);
    assert!(app.search(SearchScope::Project).is_none());
    assert_eq!(app.message, "No changed files to search.");
    app.open_path("a.rs".to_string(), Some(3));
    match app.search(SearchScope::File) {
        Some(Effect::Search { targets, prompt, .. }) => {
            assert_eq!(targets, vec!["a.rs"]);
            assert_eq!(prompt, "file> ");
        }
        _ => panic!("a search was asked for"),
    }
    app.report_failure("fzf", "not found");
    assert_eq!(app.message, "fzf: not found");
}

#[test]
fn reload_keeps_the_selected_file() {
    let mut app = new_app();
    app.open_path("b.rs".to_string(), None);
    app.needs_render = false;
    app.reload(vec![], strings(&["aa", "b.rs", "c"]), &[]);
    assert_eq!(app.selected, Some(2));
    assert!(app.needs_render);
    app.reload(vec![], strings(&["aa"]), &[]);
    assert_eq!(app.selected, Some(0));
}

#[test]
fn cursor_moves_by_vim_motions() {
    let mut app = annotating("foo bar(x);\n\n  second line\nend\n");
    assert_eq!(cursor(&app), (1, 0));
    press(&mut app, Key::Char('w'));
    assert_eq!(cursor(&app), (1, 4));
    press(&mut app, Key::Char('e'));
    assert_eq!(cursor(&app), (1, 6));
    press(&mut app, Key::Char('w'));
    assert_eq!(cursor(&app), (1, 7));
    press(&mut app, Key::Char('b'));
    assert_eq!(cursor(&app), (1, 4));
    press(&mut app, Key::Char('$'));
    assert_eq!(cursor(&app), (1, 11));
    press(&mut app, Key::Char('j'));
    assert_eq!(cursor(&app), (2, 0));
    press(&mut app, Key::Char('j'));
    press(&mut app, Key::Char('^'));
    assert_eq!(cursor(&app), (3, 2));
    press(&mut app, Key::Char('0'));
    assert_eq!(cursor(&app), (3, 0));
    press(&mut app, Key::Char('{'));
    assert_eq!(cursor(&app), (2, 0));
    press(&mut app, Key::Char('}'));
    assert_eq!(cursor(&app), (4, 0));
    press(&mut app, Key::Char('g'));
    press(&mut app, Key::Char(']'));
    assert_eq!(cursor(&app), (4, 0));
    press(&mut app, Key::Char('['));
    assert_eq!(cursor(&app), (1, 0));
    press(&mut app, Key::Char('G'));
    assert_eq!(cursor(&app), (4, 0));
    press(&mut app, Key::Char('l'));
    press(&mut app, Key::Left);
    press(&mut app, Key::Up);
    assert_eq!(cursor(&app), (3, 0));
    press(&mut app, Key::Char('g'));
    assert_eq!(cursor(&app), (1, 0));
    press(&mut app, Key::Char('k'));
    press(&mut app, Key::Char('h'));
    assert_eq!(cursor(&app), (1, 0));
}

#[test]
fn keys_that_the_cursor_does_not_know_fall_through() {
    let mut app = annotating("a\n");
    press(&mut app, Key::Char('W'));
    assert_eq!(app.message, "wrap: on");
    assert!(app.annotate);
}

#[test]
fn cursor_stays_on_the_screen() {
    let content: String = (0..50).map(|n| format!("{n}\n")).collect();
    let mut app = annotating(&content);
    assert_eq!(app.preview_height, 10);
    press(&mut app, Key::Char('G'));
    assert_eq!(app.scroll, 40);
    app.render_annotate("a.rs", &content, &[]);
    assert_eq!(app.scroll, 40);
    press(&mut app, Key::Char('g'));
    assert_eq!(app.scroll, 0);
    // A file that has become shorter takes the cursor along.
    press(&mut app, Key::Char('G'));
    app.render_annotate("a.rs", "only\n", &[]);
    assert_eq!(cursor(&app), (1, 0));
    app.render_annotate("a.rs", "", &[]);
    assert_eq!(cursor(&app), (1, 0));
    assert_eq!(text(&app.preview[0]), "(empty file — nothing to annotate)");
}

#[test]
fn selection_is_copied_while_it_grows() {
    let mut app = annotating("alpha beta\ngamma\n");
    press(&mut app, Key::Char('v'));
    match press(&mut app, Key::Char('w')) {
        Some(Effect::Copy { text }) => assert_eq!(text, "alpha b"),
        _ => panic!("the selection was to be copied"),
    }
    assert!(app.in_selection(1, 3) && !app.in_selection(1, 7));
    match press(&mut app, Key::Char('V')) {
        Some(Effect::Copy { text }) => assert_eq!(text, "alpha beta"),
        _ => panic!("the selection was to be copied"),
    }
    match press(&mut app, Key::Char('y')) {
        Some(Effect::Copy { text }) => assert_eq!(text, "alpha beta"),
        _ => panic!("the selection was to be copied"),
    }
    assert_eq!(app.message, "yanked 10 char(s)");
    assert!(app.copy_selection().is_none());
    assert!(press(&mut app, Key::Char('y')).is_none());
    assert_eq!(app.message, "nothing selected");
    press(&mut app, Key::Char('V'));
    press(&mut app, Key::Char('V'));
    assert!(app.copy_selection().is_none());
    press(&mut app, Key::Char('v'));
    press(&mut app, Key::Esc);
    assert!(app.annotate);
    press(&mut app, Key::Esc);
    assert!(!app.annotate && app.cursor.is_none());
}

#[test]
fn note_is_typed_saved_edited_and_deleted() {
    let mut app = annotating("let a = 1;\nlet b = 2;\n");
    chars(&mut app, "wvec");
    let input = app.input.as_ref().unwrap();
    assert_eq!((input.start, input.end, input.editing), ((1, 4), (1, 6), None));
    chars(&mut app, " why");
    press(&mut app, Key::Enter);
    chars(&mut app, "so ");
    let effect = app.handle_key(Key::Char('s'), true, &at(0));
    match effect {
        Some(Effect::Commit { action: SaveAction::Write { path, notes }, updated }) => {
            assert_eq!(path, "/repo/.sidecar/a.rs.json");
            assert!(!updated);
            assert_eq!(notes.path, "a.rs");
            assert_eq!(notes.notes[0].text, "why\nso");
            assert_eq!(notes.notes[0].snippet, vec!["a ="]);
            assert_eq!((notes.notes[0].id, notes.notes[0].created_at.as_str()), (7, "2026-07-13T10:04:00Z"));
        }
        _ => panic!("the note was to be stored"),
    }
    assert!(app.input.is_none() && app.copy_selection().is_none());
    app.report_commit(false, None);
    assert_eq!(app.message, "note saved");

    // The note under the cursor is edited and keeps its place.
    press(&mut app, Key::Char('c'));
    let input = app.input.as_ref().unwrap();
    assert_eq!((input.buffer.as_str(), input.cursor, input.editing), ("why\nso", 6, Some(7)));
    press(&mut app, Key::Char('!'));
    match app.handle_key(Key::Char('s'), true, &at(1)) {
        Some(Effect::Commit { action: SaveAction::Write { notes, .. }, updated }) => {
            assert!(updated);
            assert_eq!(notes.notes.len(), 1);
            assert_eq!(notes.notes[0].text, "why\nso!");
            assert_eq!((notes.notes[0].start_line, notes.notes[0].start_col), (1, 4));
        }
        _ => panic!("the note was to be stored"),
    }
    app.report_commit(true, None);
    assert_eq!(app.message, "note updated");
    app.report_commit(true, Some("disk full"));
    assert_eq!(app.message, "note save failed: disk full");

    press(&mut app, Key::Char('j'));
    assert!(press(&mut app, Key::Char('d')).is_none());
    assert_eq!(app.message, "no note under cursor");
    press(&mut app, Key::Char('k'));
    match press(&mut app, Key::Char('d')) {
        Some(Effect::Save { action: SaveAction::Remove { path } }) => {
            assert_eq!(path, "/repo/.sidecar/a.rs.json");
        }
        _ => panic!("the file was to be removed"),
    }
    assert_eq!(app.message, "note deleted");
    assert!(app.notes.get("a.rs").is_none());
}

#[test]
fn note_without_text_or_place_is_not_kept() {
    let mut app = annotating("x\n");
    press(&mut app, Key::Char('c'));
    chars(&mut app, "  ");
    assert!(app.handle_key(Key::Char('s'), true, &at(0)).is_none());
    assert_eq!(app.message, "note discarded (empty)");
    press(&mut app, Key::Char('c'));
    press(&mut app, Key::Esc);
    assert_eq!(app.message, "note cancelled");
    assert!(app.input.is_none());
    let mut app = annotating("");
    press(&mut app, Key::Char('c'));
    press(&mut app, Key::Char('t'));
    assert!(app.handle_key(Key::Char('s'), true, &at(0)).is_none());
    assert_eq!(app.message, "could not anchor note");
}

#[test]
fn note_over_a_line_when_nothing_is_selected() {
    let mut app = annotating("one\ntwo\n");
    press(&mut app, Key::Char('j'));
    press(&mut app, Key::Char('c'));
    press(&mut app, Key::Char('t'));
    app.handle_key(Key::Char('s'), true, &at(0));
    let note = &app.notes.get("a.rs").unwrap()[0];
    assert_eq!(note.kind, SelKind::Line);
    assert_eq!(note.snippet, vec!["two"]);
}

#[test]
fn files_with_notes_open_annotated() {
    let ls = strings(&["x"]);
    let mut book = NoteBook::empty();
    book.insert("a.rs", vec![Note::new(SelKind::Line, (1, 0), (1, 0), "n".into(), &ls).unwrap()]);
    let contents = [FileContent { path: "a.rs".to_string(), content: "y\nx\n".to_string() }];
    let (mut app, actions) =
        App::new("/r".to_string(), vec![], strings(&["a.rs", "b.rs"]), &book, &contents);
    assert_eq!(actions.len(), 1);
    assert_eq!(app.notes.get("a.rs").unwrap()[0].start_line, 2);
    app.open_path("a.rs".to_string(), Some(5));
    assert!(app.annotate);
    assert_eq!(cursor(&app), (5, 0));
    app.open_path("b.rs".to_string(), None);
    assert!(!app.annotate);
    let actions = app.reload(vec![], strings(&["a.rs"]), &[]);
    assert!(matches!(&actions[0], SaveAction::Remove { .. }));
    app.open_path("a.rs".to_string(), None);
    assert!(!app.annotate);
}

#[test]
fn search_in_the_file_wraps_and_repeats() {
    let mut app = annotating("Alpha beta\nBETA alpha\n");
    press(&mut app, Key::Char('/'));
    chars(&mut app, "betx");
    press(&mut app, Key::Backspace);
    assert_eq!(app.find.as_deref(), Some("bet"));
    press(&mut app, Key::Enter);
    assert_eq!(cursor(&app), (1, 6));
    assert_eq!(app.message, "/bet");
    press(&mut app, Key::Char('/'));
    press(&mut app, Key::Enter);
    assert_eq!(cursor(&app), (2, 0));
    press(&mut app, Key::Char('/'));
    press(&mut app, Key::Enter);
    assert_eq!(cursor(&app), (1, 6));
    assert_eq!(app.message, "/bet (wrapped)");
    press(&mut app, Key::Char('/'));
    chars(&mut app, "zzz");
    press(&mut app, Key::Enter);
    assert_eq!(app.message, "not found: zzz");
    assert_eq!(cursor(&app), (1, 6));
    press(&mut app, Key::Char('/'));
    press(&mut app, Key::Esc);
    assert_eq!(app.message, "search cancelled");
    let mut app = annotating("a\n");
    press(&mut app, Key::Char('/'));
    app.handle_key(Key::Char('x'), true, &at(0));
    press(&mut app, Key::Enter);
    assert_eq!(app.message, "no search pattern");
}

#[test]
fn search_does_not_find_overlapping_occurrences() {
    let mut app = annotating("aaaa\n");
    app.find_jump("aa");
    assert_eq!(cursor(&app), (1, 2));
    app.find_jump("aa");
    assert_eq!(cursor(&app), (1, 0));
}

#[test]
fn annotating_can_be_entered_from_the_list() {
    let mut app = annotating("one two\n");
    app.focus = Focus::Left;
    press(&mut app, Key::Char('n'));
    assert!(app.focus == Focus::Right && app.annotate);
    app.focus = Focus::Left;
    press(&mut app, Key::Char('V'));
    assert!(app.focus == Focus::Right);
    assert_eq!(app.copy_selection().as_deref(), Some("one two"));
    app.focus = Focus::Left;
    press(&mut app, Key::Char('k'));
    assert!(matches!(&app.view, Subject::File { path, .. } if path == ".hid"));
}

#[test]
fn annotated_rows_show_gutter_text_notes_and_cursor() {
    let mut app = annotating("\tab\n\nlast\n");
    chars(&mut app, "jjc");
    chars(&mut app, "one");
    press(&mut app, Key::Enter);
    chars(&mut app, "two");
    app.handle_key(Key::Char('s'), true, &at(0));
    app.render_annotate("a.rs", "\tab\n\nlast\n", &[]);
    assert_eq!(app.preview.len(), 3);
    assert_eq!(app.annotate_gutter, 5);
    assert_eq!(text(&app.preview[0]), " 1 │     ab");
    assert_eq!(text(&app.preview[1]), " 2 │ ");
    assert_eq!(text(&app.preview[2]), "●3 │ last  ▸ one ⏎ two");
    let row = &app.preview[2].spans;
    assert_eq!(row[0].style, Style::fg(Color::Cyan));
    assert_eq!(row[1].style, Style::fg(Color::DarkGray));
    assert_eq!(row[5].style, Style::modifier(REVERSED));
    assert_eq!(row[6].style.bg, Some(Color::Rgb(58, 58, 74)));
    assert_eq!(row[6].style.add, UNDERLINED);
    assert_eq!(row[9].style.add, ITALIC);
    press(&mut app, Key::Char('$'));
    app.render_annotate("a.rs", "\tab\n\nlast\n", &[]);
    assert_eq!(text(&app.preview[2]), "●3 │ last   ▸ one ⏎ two");
}

#[test]
fn highlighted_lines_are_used_when_there_are_enough() {
    let mut app = annotating("ab\n");
    let red = Style::fg(Color::Red);
    let line = Line {
        spans: vec![Span::raw("  1 ".to_string()), Span::styled("ab".to_string(), red)],
    };
    app.render_annotate("a.rs", "ab\n", &[line.clone()]);
    assert_eq!(app.annotate_gutter, 4);
    assert_eq!(app.preview[0].spans[4].style, red.patch(Style::modifier(REVERSED)));
    assert_eq!(app.preview[0].spans[5].style, red);
    app.render_annotate("a.rs", "ab\ncd\n", &[line]);
    assert_eq!(text(&app.preview[0]), " 1 │ ab");
}

#[test]
fn mouse_clicks_select_rows_and_positions() {
    let mut app = annotating("hello world\nsecond\n");
    // Text starts in column 20 + 1 + 5.
    assert_eq!(app.annotate_cell_at(26, 1), Some((1, 0)));
    assert_eq!(app.annotate_cell_at(32, 2), Some((2, 6)));
    assert_eq!(app.annotate_cell_at(50, 2), Some((2, 6)));
    assert_eq!(app.annotate_cell_at(20, 1), None);
    assert_eq!(app.annotate_cell_at(26, 3), None);
    assert!(app.handle_mouse(MouseKind::LeftDown, 32, 1).is_none());
    assert_eq!(cursor(&app), (1, 6));
    match app.handle_mouse(MouseKind::LeftDrag, 36, 1) {
        Some(Effect::Copy { text }) => assert_eq!(text, "world"),
        _ => panic!("the selection was to be copied"),
    }
    app.handle_mouse(MouseKind::LeftUp, 36, 1);
    assert!(app.handle_mouse(MouseKind::LeftDrag, 27, 1).is_none());
    assert_eq!(cursor(&app), (1, 10));
    app.handle_mouse(MouseKind::LeftDown, 3, 2);
    assert_eq!(app.selected, Some(1));
    assert!(app.focus == Focus::Left);
    assert_eq!(app.list_row_at(0), None);
    assert_eq!(app.list_row_at(4), Some(3));
    assert_eq!(app.list_row_at(5), None);
    app.handle_mouse(MouseKind::ScrollDown, 3, 2);
    assert_eq!(app.selected, Some(2));
    app.handle_mouse(MouseKind::ScrollUp, 3, 2);
    assert_eq!(app.selected, Some(1));
}

#[test]
fn drag_over_a_file_enters_the_annotate_view() {
    let mut app = annotating("x\n");
    press(&mut app, Key::Char('n'));
    assert!(!app.annotate);
    app.handle_mouse(MouseKind::LeftDown, 30, 2);
    app.handle_mouse(MouseKind::LeftDrag, 31, 2);
    assert!(app.annotate);
    app.show_help = true;
    app.handle_mouse(MouseKind::LeftDown, 3, 2);
    assert!(app.focus == Focus::Right);
}

#[test]
fn scroll_wheel_moves_the_preview() {
    let mut app = new_app();
    app.place(
        Rect { x: 0, y: 0, width: 20, height: 6 },
        Rect { x: 20, y: 0, width: 30, height: 6 },
    );
    app.show_preview((0..20).map(|n| raw(&n.to_string())).collect(), false);
    app.handle_mouse(MouseKind::ScrollDown, 25, 2);
    assert_eq!(app.scroll, 3);
    app.handle_mouse(MouseKind::ScrollUp, 25, 2);
    assert_eq!(app.scroll, 0);
}

#[test]
fn list_rows_carry_markers_and_badges() {
    let mut app = new_app();
    let note = Note::new(SelKind::Line, (1, 0), (1, 0), "n".into(), &strings(&["x"])).unwrap();
    app.notes.insert("a.rs", vec![note.copy(), note]);
    let rows = app.draw_list();
    let shown: Vec<String> = rows.iter().map(text).collect();
    assert_eq!(shown, vec!["● PROJECT-ROOT", "? .hid", "  a.rs  ✎2", "M b.rs"]);
    assert_eq!(rows[0].spans[1].style, Style::modifier(BOLD));
    assert_eq!(rows[1].spans[0].style, Style::fg(Color::Green));
    assert_eq!(rows[2].spans[0].style, Style::fg(Color::Gray));
    assert_eq!(rows[3].spans[0].style, Style::fg(Color::Yellow));
    assert_eq!(app.list_title(), " All files (3) ");
    assert_eq!(app.border_style(Focus::Left), Style::fg(Color::Cyan));
    assert_eq!(app.border_style(Focus::Right), Style::fg(Color::DarkGray));
}

#[test]
fn left_panel_is_as_wide_as_its_rows_within_bounds() {
    let mut app = new_app();
    assert_eq!(app.desired_left_width(100), 20);
    app.reload(vec![], strings(&["a-path-of-thirty-characters-xx"]), &[]);
    assert_eq!(app.desired_left_width(100), 37);
    assert_eq!(app.desired_left_width(50), 26);
    assert_eq!(app.desired_left_width(10), 24);
}

#[test]
fn titles_and_footer_follow_the_state() {
    let mut app = new_app();
    assert_eq!(app.draw_preview_title(), " PROJECT-ROOT · project-wide diff ");
    assert_eq!(app.draw_preview_bottom(), " 1L · diff: auto ");
    assert!(text(&app.draw_footer()).starts_with("? help"));
    app.hunks = vec![HunkMark { offset: 0, path: Some("p.rs".to_string()), line: 1 }];
    assert_eq!(app.draw_preview_title(), " PROJECT-ROOT · p.rs ");
    press(&mut app, Key::Char('W'));
    assert_eq!(text(&app.draw_footer()), "wrap: on");
    press(&mut app, Key::Char('R'));
    assert_eq!(app.draw_preview_bottom(), " 1L · diff: auto · wrap · auto ");
    let mut app = annotating("ab\n");
    assert_eq!(app.draw_preview_title(), " a.rs ");
    assert_eq!(app.draw_preview_bottom(), " 1L · annotate · 1:0 ");
    press(&mut app, Key::Char('l'));
    assert!(text(&app.draw_footer()).starts_with("annotate · hjkl"));
    press(&mut app, Key::Char('/'));
    press(&mut app, Key::Char('q'));
    assert_eq!(text(&app.draw_footer()), "/q▏   (⏎ next · Esc cancel)");
}

#[test]
fn help_lists_the_keys() {
    let screen = Rect { x: 0, y: 0, width: 100, height: 50 };
    let help = draw_help(screen, "1.0");
    assert_eq!(help.title, " Keybindings · sidecar 1.0 ");
    assert_eq!(help.lines.len(), 34);
    assert_eq!(text(&help.lines[0]), "           h / l  focus left / right panel");
    assert!(help.lines[12].spans.is_empty());
    assert_eq!(text(&help.lines[33]), "Ctrl+D / Ctrl+C Ctrl+C  quit");
    assert_eq!(help.area, Rect { x: 17, y: 7, width: 66, height: 36 });
    let small = draw_help(Rect { x: 0, y: 0, width: 30, height: 10 }, "1.0");
    assert_eq!(small.area, Rect { x: 2, y: 1, width: 26, height: 8 });
}

#[test]
fn note_box_shows_the_text_with_a_block_cursor() {
    let input = InputState {
        buffer: "ab\n\ncd".to_string(),
        cursor: 5,
        kind: SelKind::Line,
        start: (3, 0),
        end: (4, 0),
        editing: Some(1),
    };
    let screen = Rect { x: 0, y: 0, width: 80, height: 24 };
    let drawn = draw_note_input(&input, screen);
    assert_eq!(drawn.title, " Edit note · lines 3-4 ");
    let shown: Vec<String> = drawn.lines.iter().map(text).collect();
    assert_eq!(shown, vec!["ab", "", "cd", "", "⏎ newline · Ctrl+S save · Esc cancel"]);
    let contents: Vec<&str> = drawn.lines[2].spans.iter().map(|s| s.content.as_str()).collect();
    assert_eq!(contents, vec!["c", "d", ""]);
    assert_eq!(drawn.lines[2].spans[1].style, Style::modifier(REVERSED));
    assert_eq!(drawn.area, Rect { x: 4, y: 8, width: 72, height: 7 });
    let input = InputState {
        buffer: "".to_string(),
        cursor: 0,
        kind: SelKind::Line,
        start: (3, 0),
        end: (3, 0),
        editing: None,
    };
    let drawn = draw_note_input(&input, Rect { x: 0, y: 0, width: 20, height: 7 });
    assert_eq!(drawn.title, " New note · line 3 ");
    assert_eq!(text(&drawn.lines[0]), " ");
    assert_eq!(drawn.area.height, 5);
}

#[test]
fn browsing_leaves_the_notes_alone() {
    let mut app = annotating("one\ntwo\n");
    press(&mut app, Key::Char('c'));
    press(&mut app, Key::Char('t'));
    app.handle_key(Key::Char('s'), true, &at(0));
    for key in ['j', 'v', 'w', 'V', 'y', '}', 'n', 'C', '.', 'G', 'k', 'W', '2', ']', 'S', 'H'] {
        press(&mut app, Key::Char(key));
    }
    app.handle_mouse(MouseKind::LeftDown, 25, 3);
    app.handle_mouse(MouseKind::ScrollDown, 25, 3);
    assert_eq!(app.notes.get("a.rs").unwrap()[0].text, "t");
    assert_eq!(app.all_files, vec![".hid", "a.rs", "b.rs"]);
    assert_eq!(app.root, "/repo");
}

#[test]
fn moments_are_stamped() {
    let m = Moment::at(3);
    assert_eq!(m.now, 3);
    assert_eq!(m.created_at.len(), 20);
    assert!(m.created_at.ends_with('Z'));
    let c = CursorState { line: 2, col: 1, anchor: None, kind: SelKind::Char };
    assert_eq!(c.copy().line, 2);
}

#[test]
fn panels_fill_the_screen() {
    let mut app = new_app();
    let footer = app.fit(100, 40);
    assert_eq!(footer, Rect { x: 0, y: 39, width: 100, height: 1 });
    assert_eq!(app.list_area, Rect { x: 0, y: 0, width: 20, height: 39 });
    assert_eq!(app.preview_area, Rect { x: 20, y: 0, width: 80, height: 39 });
    assert_eq!((app.preview_width, app.preview_height), (78, 37));
    app.toggle_list();
    app.needs_render = false;
    app.fit(100, 40);
    assert_eq!(app.list_area, Rect { x: 0, y: 0, width: 0, height: 39 });
    assert_eq!(app.preview_area, Rect { x: 0, y: 0, width: 100, height: 39 });
    assert!(app.needs_render);
}

use runk::annotation::highlight_input;
use runk::calendar::{id_at, iso8601_at, iso8601_from_secs, now_iso8601, unique_id};
use runk::notebook::{
    dir, encode_filename, file_path, is_notes_file, load_all, save, FileContent, FileNotes, NoteBook, SaveAction,
};
use runk::notes::{canon_lines, coords, revalidate, selection_text, Note, SelKind};

fn lines(s: &[&str]) -> Vec<String> {
    s.iter().map(|s| s.to_string()).collect()
}

#[test]
fn char_note_slices_single_line() {
    let ls = lines(&["let a = 1;", "let b = 2;"]);
    let note = Note::new(SelKind::Char, (1, 4), (1, 4), "x".into(), &ls).unwrap();
    assert_eq!(note.snippet, vec!["a"]);
}

#[test]
fn char_note_slices_across_lines() {
    let ls = lines(&["foo(", "  bar,", ")"]);
    // from '(' on line 1 to 'bar' end on line 2
    let note = Note::new(SelKind::Char, (1, 3), (2, 4), "n".into(), &ls).unwrap();
    assert_eq!(note.snippet, vec!["(", "  bar"]);
}

#[test]
fn line_note_keeps_whole_lines() {
    let ls = lines(&["a", "b", "c"]);
    let note = Note::new(SelKind::Line, (1, 0), (2, 0), "n".into(), &ls).unwrap();
    assert_eq!(note.snippet, vec!["a", "b"]);
}

#[test]
fn revalidate_follows_a_shifted_line() {
    let ls = lines(&["one", "two", "three"]);
    let mut note = Note::new(SelKind::Line, (1, 0), (1, 0), "n".into(), &ls).unwrap();
    // Insert a line at the top; "one" is now line 2.
    let shifted = lines(&["zero", "one", "two", "three"]);
    assert!(revalidate(&mut note, &shifted));
    assert_eq!(note.start_line, 2);
}

#[test]
fn revalidate_drops_deleted_text() {
    let ls = lines(&["keep", "delete-me"]);
    let mut note = Note::new(SelKind::Line, (2, 0), (2, 0), "n".into(), &ls).unwrap();
    let after = lines(&["keep"]);
    assert!(!revalidate(&mut note, &after));
}

#[test]
fn char_note_relocates_within_a_line() {
    let ls = lines(&["value = compute()"]);
    let note = Note::new(SelKind::Char, (1, 8), (1, 14), "n".into(), &ls).unwrap();
    assert_eq!(note.snippet, vec!["compute"]);
    let mut note = note;
    let after = lines(&["let value =    compute()"]);
    assert!(revalidate(&mut note, &after));
    assert_eq!(note.start_col, 15);
    assert_eq!(note.end_col, 21);
}

#[test]
fn filename_encoding_roundtrips_safely() {
    assert_eq!(encode_filename("src/app.rs"), "src%2Fapp.rs");
}

#[test]
fn iso8601_formats_known_instants() {
    assert_eq!(iso8601_from_secs(0), "1970-01-01T00:00:00Z");
    assert_eq!(iso8601_from_secs(1_000_000_000), "2001-09-09T01:46:40Z");
    // A leap day, to exercise the civil-date math.
    assert_eq!(iso8601_from_secs(1_582_934_400), "2020-02-29T00:00:00Z");
}

#[test]
fn save_then_load_all_roundtrips() {
    let root = "/repo";
    let ls = lines(&["alpha", "beta"]);
    let note = Note::new(SelKind::Line, (1, 0), (1, 0), "hello".into(), &ls).unwrap();
    let stored = match save(root, "src/app.rs", &[note]) {
        SaveAction::Write { path, notes } => {
            assert_eq!(path, "/repo/.sidecar/src%2Fapp.rs.json");
            notes
        }
        SaveAction::Remove { .. } => panic!("notes were to be written"),
    };

    let loaded = load_all(&[stored]);
    let got = loaded.get("src/app.rs").expect("notes for path");
    assert_eq!(got.len(), 1);
    assert_eq!(got[0].text, "hello");
    assert_eq!(got[0].snippet, vec!["alpha"]);

    // Saving an empty set removes the backing file.
    match save(root, "src/app.rs", &[]) {
        SaveAction::Remove { path } => assert_eq!(path, "/repo/.sidecar/src%2Fapp.rs.json"),
        SaveAction::Write { .. } => panic!("the file was to be removed"),
    }
    assert!(load_all(&[]).files.is_empty());
}

#[test]
fn contains_covers_char_and_line_ranges() {
    let ls = lines(&["abcdef"]);
    let note = Note::new(SelKind::Char, (1, 1), (1, 3), "n".into(), &ls).unwrap();
    assert!(note.contains(1, 2));
    assert!(!note.contains(1, 4));
    let line = Note::new(
        SelKind::Line,
        (2, 0),
        (3, 0),
        "n".into(),
        &lines(&["a", "b", "c"]),
    )
    .unwrap();
    assert!(line.contains(3, 99));
    assert!(!line.contains(1, 0));
}

#[test]
fn note_ends_are_put_in_reading_order() {
    let ls = lines(&["abcdef", "ghijkl"]);
    let note = Note::new(SelKind::Char, (2, 1), (1, 4), "n".into(), &ls).unwrap();
    assert_eq!(coords(&note), (1, 4, 2, 1));
    assert_eq!(note.snippet, vec!["ef", "gh"]);
}

#[test]
fn note_outside_the_file_is_refused() {
    let ls = lines(&["abc", ""]);
    assert!(Note::new(SelKind::Line, (0, 0), (1, 0), "n".into(), &ls).is_none());
    assert!(Note::new(SelKind::Line, (1, 0), (3, 0), "n".into(), &ls).is_none());
    assert!(Note::new(SelKind::Char, (1, 0), (1, 3), "n".into(), &ls).is_none());
    assert!(Note::new(SelKind::Char, (2, 0), (2, 1), "n".into(), &ls).is_none());
    let empty = Note::new(SelKind::Char, (2, 0), (2, 0), "n".into(), &ls).unwrap();
    assert_eq!(empty.snippet, vec![""]);
}

#[test]
fn fresh_note_is_left_where_it_is() {
    let ls = lines(&["x", "x", "x"]);
    let mut note = Note::new(SelKind::Line, (2, 0), (2, 0), "n".into(), &ls).unwrap();
    assert!(revalidate(&mut note, &ls));
    assert_eq!(coords(&note), (2, 0, 2, 0));
}

#[test]
fn nearest_match_wins_and_the_earlier_of_two() {
    let mut note = Note::new(SelKind::Line, (3, 0), (3, 0), "n".into(), &lines(&["a", "b", "hit"])).unwrap();
    let after = lines(&["q", "hit", "q", "hit", "q"]);
    assert!(revalidate(&mut note, &after));
    assert_eq!(note.start_line, 2);
    // Once anchored, a note stays.
    assert!(revalidate(&mut note, &after));
    assert_eq!(note.start_line, 2);
}

#[test]
fn note_survives_lines_added_before_and_after() {
    let mut note = Note::new(SelKind::Char, (1, 2), (2, 1), "n".into(), &lines(&["abcd", "efgh"])).unwrap();
    assert_eq!(note.snippet, vec!["cd", "ef"]);
    assert!(revalidate(&mut note, &lines(&["new", "abcd", "efgh", "more"])));
    assert_eq!(coords(&note), (2, 2, 3, 1));
}

#[test]
fn character_snippet_ending_in_an_empty_line_needs_an_empty_line() {
    let mut note = Note::new(SelKind::Char, (1, 0), (2, 0), "n".into(), &lines(&["ab", ""])).unwrap();
    assert_eq!(note.snippet, vec!["ab", ""]);
    assert!(!revalidate(&mut note, &lines(&["x", "ab", "cd"])));
    assert_eq!(coords(&note), (1, 0, 2, 0));
    let after = lines(&["ab", "cd", "ab", "", "e"]);
    assert!(revalidate(&mut note, &after));
    assert_eq!(coords(&note), (3, 0, 4, 0));
    assert_eq!(selection_text(SelKind::Char, (3, 0), (4, 0), &after).unwrap(), "ab\n");
}

#[test]
fn selection_text_clamps_columns_to_characters() {
    let ls = lines(&["abc", "", "de"]);
    assert_eq!(selection_text(SelKind::Char, (1, 1), (1, 9), &ls).unwrap(), "bc");
    assert_eq!(selection_text(SelKind::Char, (3, 0), (1, 2), &ls).unwrap(), "c\n\nd");
    assert_eq!(selection_text(SelKind::Line, (1, 7), (3, 0), &ls).unwrap(), "abc\n\nde");
    assert!(selection_text(SelKind::Line, (1, 0), (4, 0), &ls).is_none());
}

#[test]
fn canonical_lines_expand_tabs() {
    assert_eq!(canon_lines("a\tb\r\n\tc\n"), vec!["a    b", "    c"]);
    assert_eq!(highlight_input("a\tb\nc").unwrap(), "a    b\nc");
    assert!(highlight_input("").is_none());
}

#[test]
fn encoding_keeps_safe_bytes_and_escapes_the_rest() {
    assert_eq!(encode_filename("a-Z_0.9"), "a-Z_0.9");
    assert_eq!(encode_filename("a b%é"), "a%20b%25%C3%A9");
    assert_eq!(dir("/repo"), "/repo/.sidecar");
    assert_eq!(dir("/"), "/.sidecar");
    assert_eq!(dir(""), ".sidecar");
    assert_eq!(file_path("/repo", "a/b"), "/repo/.sidecar/a%2Fb.json");
    assert_ne!(file_path("/repo", "a/b"), file_path("/repo", "a%2Fb"));
}

#[test]
fn only_json_files_are_read() {
    assert!(is_notes_file("src%2Fapp.rs.json"));
    assert!(!is_notes_file(".json"));
    assert!(!is_notes_file("notes.txt"));
    assert!(!is_notes_file("json"));
}

#[test]
fn loading_skips_empty_files_and_takes_the_later_page() {
    let note = |text: &str| {
        Note::new(SelKind::Line, (1, 0), (1, 0), text.to_string(), &lines(&["x"])).unwrap()
    };
    let book = load_all(&[
        FileNotes { path: "a".to_string(), notes: vec![note("first")] },
        FileNotes { path: "b".to_string(), notes: vec![] },
        FileNotes { path: "a".to_string(), notes: vec![note("second")] },
    ]);
    assert_eq!(book.files.len(), 1);
    assert_eq!(book.get("a").unwrap()[0].text, "second");
    assert!(book.get("b").is_none());
}

#[test]
fn notebook_inserts_replaces_and_removes() {
    let note = Note::new(SelKind::Line, (1, 0), (1, 0), "n".into(), &lines(&["x"])).unwrap();
    let mut book = NoteBook::empty();
    book.insert("a", vec![note.copy()]);
    book.insert("b", vec![]);
    book.insert("a", vec![note.copy(), note.copy()]);
    assert_eq!(book.get("a").unwrap().len(), 2);
    book.remove("a");
    assert!(book.get("a").is_none());
    assert!(book.get("b").is_some());
}

#[test]
fn refresh_moves_drops_and_stores() {
    let make = |text: &str, line: usize, ls: &[&str]| {
        Note::new(SelKind::Line, (line, 0), (line, 0), text.to_string(), &lines(ls)).unwrap()
    };
    let mut book = NoteBook::empty();
    book.insert("moved", vec![make("m", 1, &["one"])]);
    book.insert("gone", vec![make("g", 1, &["two"])]);
    book.insert("same", vec![make("s", 1, &["three"])]);
    let contents = vec![
        FileContent { path: "moved".to_string(), content: "zero\none\n".to_string() },
        FileContent { path: "same".to_string(), content: "three\n".to_string() },
    ];
    let (fresh, actions) = book.refresh("/r", &contents);
    assert_eq!(fresh.get("moved").unwrap()[0].start_line, 2);
    assert!(fresh.get("gone").is_none());
    assert_eq!(fresh.get("same").unwrap()[0].start_line, 1);
    assert_eq!(actions.len(), 2);
    match &actions[0] {
        SaveAction::Write { path, notes } => {
            assert_eq!(path, "/r/.sidecar/moved.json");
            assert_eq!(notes.notes[0].start_line, 2);
        }
        SaveAction::Remove { .. } => panic!("moved notes were to be written"),
    }
    match &actions[1] {
        SaveAction::Remove { path } => assert_eq!(path, "/r/.sidecar/gone.json"),
        SaveAction::Write { .. } => panic!("the file was to be removed"),
    }
    // A second refresh finds nothing to do.
    let (_, actions) = fresh.refresh("/r", &contents);
    assert!(actions.is_empty());
}

#[test]
fn clock_readings_give_ids_and_stamps() {
    assert_eq!(id_at(None), 0);
    assert_eq!(id_at(Some((1, 5))), 1_000_000_005);
    assert_eq!(id_at(Some((u64::MAX, 0))), u64::MAX.wrapping_mul(1_000_000_000));
    assert_eq!(iso8601_at(None), "1970-01-01T00:00:00Z");
    assert_eq!(iso8601_at(Some((1, 999))), "1970-01-01T00:00:01Z");
    assert!(unique_id() > 1_600_000_000_000_000_000);
    let now = now_iso8601();
    assert_eq!(now.len(), 20);
    assert!(now.as_str() > "2020-01-01T00:00:00Z");
}

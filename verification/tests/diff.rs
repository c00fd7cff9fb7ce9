use runk::diff::{
    build_hunks, diff_files, diff_target, git_diff, git_show, parse_patch, parse_unified_diff, patch_source,
    push_patch_line, read_stdin_patch, shown_revision, untracked_files, DiffLineType, DiffTarget, FileDiff,
    LineChange, LineTag, PatchSource, UntrackedFile,
};

#[test]
fn test_parse_unified_diff() {
    let patch = r#"diff --git a/test.txt b/test.txt
--- a/test.txt
+++ b/test.txt
@@ -1,3 +1,4 @@
 hello
 world
+new line
 goodbye"#;

    let files = parse_unified_diff(patch).unwrap();
    assert_eq!(files.len(), 1);
    assert_eq!(files[0].path, "test.txt");
    assert_eq!(files[0].hunks.len(), 1);
    assert_eq!(files[0].total_additions(), 1);
    assert_eq!(files[0].total_deletions(), 0);
    assert_eq!(files[0].hunks[0].lines.len(), 4);
}

#[test]
fn test_parse_git_diff_with_index() {
    let patch = r#"diff --git i/test.txt w/test.txt
index ce01362..94954ab 100644
--- i/test.txt
+++ w/test.txt
@@ -1 +1,2 @@
 hello
+world"#;

    let files = parse_unified_diff(patch).unwrap();
    assert_eq!(files.len(), 1);
    assert_eq!(files[0].path, "test.txt");
    assert_eq!(files[0].old_path.as_deref(), Some("test.txt"));
}

#[test]
fn test_parse_multiple_files() {
    let patch = r#"diff --git a/a.txt b/a.txt
--- a/a.txt
+++ b/a.txt
@@ -1,2 +1,3 @@
 foo
+bar
 baz
diff --git a/b.txt b/b.txt
--- a/b.txt
+++ b/b.txt
@@ -1,2 +1,2 @@
-old
+new
 unchanged"#;

    let files = parse_unified_diff(patch).unwrap();
    assert_eq!(files.len(), 2);
    assert_eq!(files[0].path, "a.txt");
    assert_eq!(files[1].path, "b.txt");
}

#[test]
fn test_empty_content() {
    let files = parse_unified_diff("").unwrap();
    assert!(files.is_empty());
}

#[test]
fn pending_hunk_goes_with_the_file_that_is_open_when_it_ends() {
    let patch = "diff --git a/a b/a\n@@ -1 +1 @@\n-x\ndiff --git a/b b/b\n@@ -2 +2 @@\n+y\n";
    let files = parse_unified_diff(patch).unwrap();
    assert_eq!(files.len(), 2);
    assert_eq!(files[0].hunks.len(), 0);
    assert_eq!(files[1].hunks.len(), 2);
    assert_eq!(files[1].hunks[0].header, "@@ -1 +1 @@");
    assert_eq!(files[1].total_deletions(), 1);
    assert_eq!(files[1].total_additions(), 1);
}

#[test]
fn paths_come_from_the_start_line_or_the_plus_line() {
    let files = parse_unified_diff("diff --git broken\n--- /dev/null\n+++ b/w/new.rs\n").unwrap();
    assert_eq!(files[0].path, "new.rs");
    assert_eq!(files[0].old_path, None);
    let files = parse_unified_diff("diff --git broken\n+++ /dev/null\n").unwrap();
    assert_eq!(files[0].path, "unknown");
    let files = parse_unified_diff("diff --git a/x b/b/y\n--- a/x\n--- a/z\n").unwrap();
    assert_eq!(files[0].path, "y");
    assert_eq!(files[0].old_path.as_deref(), Some("x"));
}

#[test]
fn metadata_and_stray_lines_are_skipped() {
    let patch = "junk\ndiff --git a/a b/a\nsimilarity index 90%\nrename from a\n@@ -1 +1 @@\n\\ No newline\n context\nnew file mode\n";
    let files = parse_unified_diff(patch).unwrap();
    assert_eq!(files[0].hunks[0].lines.len(), 1);
    let line = &files[0].hunks[0].lines[0];
    assert_eq!(line.kind, DiffLineType::Context);
    assert_eq!(line.content, "context");
    assert_eq!((line.old_line, line.new_line), (None, None));
}

#[test]
fn comparing_two_texts_numbers_the_lines() {
    let files = diff_files("old.txt", "new.txt", "a\nb\nc\n", "a\nx\nc\n");
    assert_eq!(files.len(), 1);
    let file = &files[0];
    assert_eq!(file.path, "new.txt");
    assert_eq!(file.old_path.as_deref(), Some("old.txt"));
    assert_eq!(file.hunks.len(), 1);
    assert_eq!(file.hunks[0].header, "@@ -1,3 +1,3 @@");
    let shown: Vec<_> = file.hunks[0]
        .lines
        .iter()
        .map(|l| (l.kind, l.old_line, l.new_line, l.content.as_str()))
        .collect();
    assert_eq!(
        shown,
        vec![
            (DiffLineType::Context, Some(1), Some(1), "a\n"),
            (DiffLineType::Remove, Some(2), None, "b\n"),
            (DiffLineType::Add, None, Some(2), "x\n"),
            (DiffLineType::Context, Some(3), Some(3), "c\n"),
        ]
    );
}

#[test]
fn far_changes_come_in_two_hunks_with_three_lines_of_context() {
    let old: String = (1..=20).map(|n| format!("{n}\n")).collect();
    let new = old.replace("2\n3\n", "2\nthree\n").replace("18\n", "eighteen\n");
    let files = diff_files("a", "b", &old, &new);
    assert_eq!(files[0].hunks.len(), 2);
    assert_eq!(files[0].hunks[0].header, "@@ -1,6 +1,6 @@");
    assert_eq!(files[0].hunks[1].header, "@@ -15,6 +15,6 @@");
    assert!(diff_files("a", "b", &old, &old)[0].hunks.is_empty());
}

#[test]
fn no_hunks_just_for_the_same_text() {
    for text in ["", "a", "a\n", "a\r\nb"] {
        assert!(diff_files("a", "b", text, text)[0].hunks.is_empty());
    }
    for (old, new) in [("a", "a\n"), ("a\n", "a\r\n"), ("", "\n"), ("a\nb\n", "b\na\n")] {
        assert!(!diff_files("a", "b", old, new)[0].hunks.is_empty());
    }
    let mut files: Vec<FileDiff> = Vec::new();
    let found = |content: &str| UntrackedFile { path: "n".to_string(), content: content.to_string() };
    untracked_files(&[found(""), found("\n")], &mut files);
    assert!(files[0].hunks.is_empty());
    assert_eq!(files[1].hunks.len(), 1);
}

#[test]
fn headers_count_each_side() {
    let change = |tag: LineTag, old_index: Option<usize>, new_index: Option<usize>| LineChange {
        tag,
        old_index,
        new_index,
        value: "v".to_string(),
    };
    let hunks = build_hunks(&[
        vec![change(LineTag::Delete, Some(4), None), change(LineTag::Delete, Some(5), None)],
        vec![change(LineTag::Insert, None, Some(8)), change(LineTag::Equal, Some(9), Some(9))],
        vec![],
    ]);
    assert_eq!(hunks[0].header, "@@ -5,2 +1,0 @@");
    assert_eq!(hunks[1].header, "@@ -1,1 +9,2 @@");
    assert_eq!(hunks[2].header, "@@ -0,0 +0,0 @@");
}

#[test]
fn untracked_file_has_added_lines_only() {
    let mut files: Vec<FileDiff> = Vec::new();
    untracked_files(
        &[UntrackedFile { path: "n.txt".to_string(), content: "one\ntwo".to_string() }],
        &mut files,
    );
    assert_eq!(files[0].path, "n.txt");
    assert_eq!(files[0].old_path, None);
    assert_eq!(files[0].total_additions(), 2);
    assert_eq!(files[0].total_deletions(), 0);
    assert_eq!(files[0].hunks[0].header, "@@ -1,0 +1,2 @@");
    assert_eq!(files[0].hunks[0].lines[1].content, "two");
}

#[test]
fn untracked_files_come_after_the_patch_unless_it_is_staged() {
    let patch = "diff --git a/a b/a\n@@ -1 +1 @@\n+x\n";
    let found = [UntrackedFile { path: "n".to_string(), content: "1\n".to_string() }];
    let files = git_diff(patch, false, &found);
    assert_eq!(files.iter().map(|f| f.path.as_str()).collect::<Vec<_>>(), vec!["a", "n"]);
    assert_eq!(git_diff(patch, true, &found).len(), 1);
    assert_eq!(git_show(patch).len(), 1);
    assert_eq!(parse_patch(patch).unwrap().len(), 1);
    assert_eq!(read_stdin_patch(patch).unwrap().len(), 1);
}

#[test]
fn printed_patch_lines_carry_their_origin() {
    let mut out = String::new();
    push_patch_line(&mut out, 'F', b"diff --git a/a b/a\n");
    push_patch_line(&mut out, 'H', b"@@ -1 +1 @@\n");
    push_patch_line(&mut out, '+', b"caf\xc3\xa9\n");
    push_patch_line(&mut out, ' ', b"\xff\n");
    assert_eq!(out, "diff --git a/a b/a\n@@ -1 +1 @@\n+café\n \u{fffd}\n");
}

#[test]
fn sources_and_targets() {
    assert_eq!(diff_target(false, false), DiffTarget::IndexToWorkTree);
    assert_eq!(diff_target(true, false), DiffTarget::HeadToIndex);
    assert_eq!(diff_target(true, true), DiffTarget::Trees);
    assert_eq!(shown_revision(None), "HEAD");
    assert_eq!(shown_revision(Some("v1")), "v1");
    assert!(matches!(patch_source(None), PatchSource::Stdin));
    assert!(matches!(patch_source(Some("-")), PatchSource::Stdin));
    assert!(matches!(patch_source(Some("p.diff")), PatchSource::File(p) if p == "p.diff"));
}

use runk::external::search_hit;
use runk::git::{
    all_files, all_files_args, capture, changed_files, changed_files_args, file_diff_args, file_diff_raw,
    file_has_diff, file_has_diff_args, has_head, has_head_args, has_status_lines, index_diff, is_tracked,
    is_tracked_args, parse_hunk_new_start, project_diff_args, project_diff_raw, top_level, top_level_args,
    untracked_diff_args, untracked_diff_raw, untracked_files, untracked_files_args, ChangedFile, CommandOutput,
    GitError,
};

fn output(code: Option<i32>, stdout: &[u8], stderr: &[u8]) -> Option<CommandOutput> {
    Some(CommandOutput { code, stdout: stdout.to_vec(), stderr: stderr.to_vec() })
}

#[test]
fn index_diff_records_added_and_removed_with_new_line_numbers() {
    let raw = "\
diff --git a/src/x.rs b/src/x.rs
--- a/src/x.rs
+++ b/src/x.rs
@@ -1,3 +1,4 @@
 fn main() {
-    let a = 1;
+    let a = 2;
+    let b = 3;
 }
";
    let index = index_diff(raw);
    let lines: Vec<&str> = index.lines().collect();
    assert_eq!(
        lines,
        vec![
            // removed line keeps the new-file cursor (line 2)
            "src/x.rs:2:1:-    let a = 1;",
            // added lines advance from line 2
            "src/x.rs:2:1:+    let a = 2;",
            "src/x.rs:3:1:+    let b = 3;",
        ]
    );
}

#[test]
fn parse_hunk_new_start_reads_the_plus_side() {
    assert_eq!(parse_hunk_new_start(" -1,3 +5,6 @@ fn foo()"), 5);
    assert_eq!(parse_hunk_new_start(" -0,0 +1 @@"), 1);
}

#[test]
fn hunk_start_defaults_to_one() {
    assert_eq!(parse_hunk_new_start(" @@"), 1);
    assert_eq!(parse_hunk_new_start(" -1 +x @@"), 1);
    assert_eq!(parse_hunk_new_start(" -1 +99999999999999999999999 @@"), 1);
}

#[test]
fn index_skips_deleted_files_and_knows_mnemonic_prefixes() {
    let raw = "+++ /dev/null\n@@ -1 +0,0 @@\n-gone\n+++ w/here.rs\n@@ -3 +7 @@\n+x\n ctx\n+y\n";
    assert_eq!(index_diff(raw), "here.rs:7:1:+x\nhere.rs:9:1:+y\n");
}

#[test]
fn index_counts_past_the_largest_line_number() {
    let raw = format!("+++ b/a\n@@ -1 +{} @@\n+x\n+y\n", usize::MAX);
    let last = (usize::MAX as u128) + 1;
    assert_eq!(index_diff(&raw), format!("a:{}:1:+x\na:{last}:1:+y\n", usize::MAX));
}

#[test]
fn changed_lines_that_look_like_headers_are_recorded() {
    let raw = "--- a/q.sql\n+++ b/q.sql\n@@ -1,2 +1 @@\n--- old\n keep\n";
    assert_eq!(index_diff(raw), "q.sql:1:1:--- old\n");
    let raw = "--- a/x\n+++ b/x\n@@ -1 +1,2 @@\n-a\n+++ b\n+c\n--- a/y\n+++ b/y\n@@ -0,0 +1 @@\n+d\n";
    assert_eq!(index_diff(raw), "x:1:1:-a\nx:1:1:+++ b\nx:2:1:+c\ny:1:1:+d\n");
    // A hunk that stops short ends where the next file starts.
    let raw = "+++ b/x\n@@ -1,9 +1,9 @@\n+a\ndiff --git a/y b/y\n--- a/y\n+++ b/y\n@@ -1 +1 @@\n+b\n";
    assert_eq!(index_diff(raw), "x:1:1:+a\ny:1:1:+b\n");
}

#[test]
fn names_end_a_hunk_that_stops_short() {
    let raw = "+++ b/x\n@@ -1,9 +1,9 @@\n+a\n--- a/y\n+++ b/y\n@@ -1 +1 @@\n+b\n";
    assert_eq!(index_diff(raw), "x:1:1:+a\ny:1:1:+b\n");
    // The diff ends before the hunk does.
    assert_eq!(index_diff("+++ b/x\n@@ -1,2 +1 @@\n--- old\n+new\n"), "x:1:1:+new\n");
    // An empty line is no line of a hunk.
    assert_eq!(index_diff("+++ b/x\n@@ -1,2 +1 @@\n\n--- old\n keep\n"), "");
    // More lines than announced, on either side.
    assert_eq!(index_diff("+++ b/x\n@@ -1 +5 @@\n+a\n+b\n-c\n"), "x:5:1:+a\nx:6:1:+b\nx:7:1:-c\n");
    // Nothing announced that can be read.
    assert_eq!(index_diff("+++ b/x\n@@ @@\n--- a\n+b\n"), "x:1:1:+b\n");
}

#[test]
fn notes_in_a_hunk_count_for_neither_file() {
    let raw = "+++ b/x\n@@ -1,2 +1,2 @@\n--- old\n\\ No newline at end of file\n+++ new\n keep\n\\ x\n--- a/y\n";
    assert_eq!(index_diff(raw), "x:1:1:--- old\nx:1:1:+++ new\n");
}

#[test]
fn index_of_a_diff_is_that_of_its_hunks() {
    let raw = "\
diff --git a/x b/x
index 1..2 100644
--- a/x
+++ b/x
@@ -1,2 +1,2 @@
 one
-two
+2
@@ -9 +9,2 @@ fn f()
 nine
+ten
diff --git a/img b/img
Binary files a/img and b/img differ
diff --git a/gone b/gone
--- a/gone
+++ /dev/null
@@ -1 +0,0 @@
-gone
diff --git a/y b/y
--- /dev/null
+++ b/y
@@ -0,0 +1 @@
+++ y
";
    assert_eq!(index_diff(raw), "x:2:1:-two\nx:2:1:+2\nx:10:1:+ten\ny:1:1:+++ y\n");
}

#[test]
fn index_of_two_diffs_is_that_of_each() {
    let a = "--- a/x\n+++ b/x\n@@ -1 +1 @@\n-a\n+b\n";
    let b = "diff --git a/y b/y\n--- a/y\n+++ b/y\n@@ -1,2 +1 @@\n--- c\n d\n";
    for (p, q) in [(a, b), (b, a), (a, a), ("", b), (a, "")] {
        assert_eq!(index_diff(&format!("{p}{q}")), index_diff(p) + &index_diff(q));
    }
    // A hunk that is short of just the lines that come next takes them.
    let short = "+++ b/x\n@@ -1,2 +1,2 @@\n-a\n+b\n";
    let next = "--- a/y\n+++ b/y\n@@ -0,0 +1 @@\n+c\n";
    assert_eq!(
        index_diff(&format!("{short}{next}")),
        "x:1:1:-a\nx:1:1:+b\nx:2:1:--- a/y\nx:2:1:+++ b/y\nx:1:1:+c\n"
    );
}

#[test]
fn index_record_leads_back_to_its_line() {
    let index = index_diff("+++ b/src/x.rs\n@@ -1 +4 @@\n+a:b\n");
    let hit = search_hit("/repo", index.as_bytes()).unwrap();
    assert_eq!(hit.path, "src/x.rs");
    assert_eq!(hit.line, Some(4));
}

#[test]
fn all_files_are_sorted_and_listed_once() {
    assert_eq!(
        all_files("untracked.txt\0tracked.txt\0.gitignore\0tracked.txt\0"),
        vec![".gitignore", "tracked.txt", "untracked.txt"]
    );
    assert_eq!(all_files("b\0é\0B\0a/b\0a"), vec!["B", "a", "a/b", "b", "é"]);
    assert!(all_files("").is_empty());
}

#[test]
fn status_lines_give_paths_and_codes() {
    let files = changed_files(" M src/a.rs\n?? new file\n\nA \n");
    assert_eq!(files.len(), 2);
    assert_eq!((files[0].status.as_str(), files[0].path.as_str()), (" M", "src/a.rs"));
    assert_eq!((files[1].status.as_str(), files[1].path.as_str()), ("??", "new file"));
    assert!(has_status_lines(" M é\n"));
    assert!(!has_status_lines("aéb\n"));
    assert!(!has_status_lines("Mé x\n"));
}

#[test]
fn markers_sum_up_the_status() {
    let marker = |status: &str| {
        ChangedFile { path: String::new(), status: status.to_string() }.marker()
    };
    assert_eq!(marker("??"), '?');
    assert_eq!(marker("A "), 'A');
    assert_eq!(marker("AD"), 'A');
    assert_eq!(marker(" D"), 'D');
    assert_eq!(marker("MD"), 'D');
    assert_eq!(marker("R "), 'R');
    assert_eq!(marker(" M"), 'M');
    assert_eq!(marker("MM"), 'M');
    assert_eq!(marker("UU"), '~');
    assert_eq!(marker(""), '~');
}

#[test]
fn answers_are_read_by_exit_code() {
    assert_eq!(capture(&output(Some(0), b"ok\xff\n", b"")).unwrap(), "ok\u{fffd}\n");
    match capture(&output(Some(128), b"", b" fatal: no \n")) {
        Err(GitError::Failed { message }) => assert_eq!(message, "fatal: no"),
        _ => panic!("the command failed"),
    }
    assert!(matches!(capture(&None), Err(GitError::NotRun)));
    assert!(matches!(capture(&output(None, b"", b"")), Err(GitError::Failed { .. })));
    assert_eq!(top_level(&output(Some(0), b"/repo\n", b"")).unwrap(), "/repo");
    assert!(top_level(&output(Some(128), b"", b"")).is_err());
    assert!(has_head(&output(Some(0), b"", b"")));
    assert!(!has_head(&None));
    assert!(!is_tracked(&output(Some(1), b"", b"")));
    assert!(is_tracked(&output(Some(0), b"", b"")));
}

#[test]
fn difference_is_told_by_the_exit_code() {
    assert!(!file_has_diff(&output(Some(0), b"", b"")).unwrap());
    assert!(file_has_diff(&output(Some(1), b"", b"")).unwrap());
    assert!(matches!(
        file_has_diff(&output(Some(129), b"", b"")),
        Err(GitError::Unexpected { code: Some(129) })
    ));
    assert!(matches!(file_has_diff(&output(None, b"", b"")), Err(GitError::Unexpected { code: None })));
    assert!(matches!(file_has_diff(&None), Err(GitError::NotRun)));
}

#[test]
fn raw_diffs_are_put_together() {
    assert_eq!(file_diff_raw(&output(Some(0), b"d", b"")).unwrap(), "d");
    assert!(file_diff_raw(&output(Some(1), b"d", b"")).is_err());
    assert_eq!(untracked_diff_raw(&output(Some(1), b"new", b"")), "new");
    assert_eq!(untracked_diff_raw(&None), "");
    assert_eq!(project_diff_raw("a", &["b".to_string(), "c".to_string()]), "abc");
    assert_eq!(untracked_files("x\r\ny\n"), vec!["x", "y"]);
}

#[test]
fn git_is_asked_with_these_arguments() {
    let settings = "-c core.quotepath=false -c diff.mnemonicPrefix=false -c diff.noprefix=false";
    assert_eq!(top_level_args().join(" "), "rev-parse --show-toplevel");
    assert_eq!(has_head_args().join(" "), "rev-parse --verify HEAD");
    assert_eq!(
        changed_files_args().join(" "),
        "-c core.quotepath=false status --porcelain=v1 --untracked-files=all --no-renames"
    );
    assert_eq!(
        all_files_args().join(" "),
        "-c core.quotepath=false ls-files --cached --others --exclude-standard -z"
    );
    assert_eq!(
        untracked_files_args().join(" "),
        "-c core.quotepath=false ls-files --others --exclude-standard"
    );
    assert_eq!(is_tracked_args("p").join(" "), "ls-files --error-unmatch -- p");
    assert_eq!(file_has_diff_args(true, "p").join(" "), "diff --quiet HEAD -- p");
    assert_eq!(file_has_diff_args(false, "p").join(" "), "diff --cached --quiet -- p");
    assert_eq!(project_diff_args(true).join(" "), format!("{settings} diff --no-color HEAD --"));
    assert_eq!(project_diff_args(false).join(" "), format!("{settings} diff --no-color --cached --"));
    assert_eq!(file_diff_args(true, "p").join(" "), format!("{settings} diff --no-color HEAD -- p"));
    assert_eq!(
        untracked_diff_args("p").join(" "),
        format!("{settings} diff --no-color --no-index -- /dev/null p")
    );
}

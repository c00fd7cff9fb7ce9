//! What is asked of the installed `git` executable, and what its answers mean.
//!
//! The user's own `git` does the work, so that their version, configuration,
//! attributes, filters and diff drivers count. This module says with which
//! arguments it is run and reads what it prints.

use crate::number::{
    decimal, decimal_roundtrip, is_digit, lemma_decimal_digits, number_of, parse_number, push_decimal,
};
use crate::text::{
    begins, blanks_are_trimmed, boundary, byte_len, byte_len_is_utf8_length, bytes_in, chars_before,
    chars_of, find_char, is_boundary, is_single, is_text, lemma_begins_first, lemma_boundary_unique,
    lemma_byte_len_add, lemma_byte_len_grows, lemma_lines_in_a_row, lemma_prefix, lemma_run_before,
    lemma_run_before_is, lines, lines_are_read_back, lines_of, lossy, lossy_text, pieces, pieces_split,
    push_chars, push_text, run_before, run_ends_at_the_first, slices, split, starts_with, string_of,
    terminated, texts, trim, trimmed, trimmed_end, trimmed_start, white_space, without_return,
};
use vstd::prelude::*;
use vstd::slice::slice_subrange;

verus! {

// ---- Running git -------------------------------------------------------------

/// What came of a command that was run: its exit code, if it ended by itself,
/// and what it printed.
#[derive(Debug, Clone)]
pub struct CommandOutput {
    pub code: Option<i32>,
    pub stdout: Vec<u8>,
    pub stderr: Vec<u8>,
}

/// Why an answer could not be had from git.
#[derive(Debug, Clone)]
pub enum GitError {
    /// The command could not be run.
    NotRun,
    /// The command failed, with this message.
    Failed { message: String },
    /// The command ended with a code that it should not end with.
    Unexpected { code: Option<i32> },
}

/// Whether a command ran and succeeded.
pub open spec fn succeeded(run: Option<CommandOutput>) -> bool {
    run is Some && run.unwrap().code == Some(0i32)
}

fn is_success(run: &Option<CommandOutput>) -> (r: bool)
    ensures
        r == succeeded(*run),
{
    match run {
        Some(output) => match output.code {
            Some(code) => code == 0,
            None => false,
        },
        None => false,
    }
}

/// What a command printed, if it ran and succeeded.
pub fn capture(run: &Option<CommandOutput>) -> (r: Result<String, GitError>)
    ensures
        r is Ok <==> succeeded(*run),
        r matches Ok(out) ==> out@ == lossy_text(run.unwrap().stdout@),
        r matches Err(GitError::NotRun) <==> run is None,
        r matches Err(GitError::Failed { message }) ==> message@ == trimmed(
            lossy_text(run.unwrap().stderr@),
        ),
        !(r matches Err(GitError::Unexpected { .. })),
{
    match run {
        Some(output) => if is_success(run) {
            Ok(lossy(output.stdout.as_slice()))
        } else {
            let message = chars_of(lossy(output.stderr.as_slice()).as_str());
            Err(GitError::Failed { message: string_of(trim(message.as_slice())) })
        },
        None => Err(GitError::NotRun),
    }
}

// ---- The repository ----------------------------------------------------------

/// The arguments that ask for the root of the repository.
pub fn top_level_args() -> (r: Vec<String>)
    ensures
        texts(r@) == seq!["rev-parse"@, "--show-toplevel"@],
{
    let r = vec!["rev-parse".to_string(), "--show-toplevel".to_string()];
    assert(texts(r@) =~= seq!["rev-parse"@, "--show-toplevel"@]);
    r
}

/// The repository root, from the answer to `top_level_args`; an error if there
/// is none.
pub fn top_level(run: &Option<CommandOutput>) -> (r: Result<String, GitError>)
    ensures
        r is Ok <==> succeeded(*run),
        r matches Ok(root) ==> root@ == trimmed(lossy_text(run.unwrap().stdout@)),
        r matches Err(GitError::NotRun) <==> run is None,
        r matches Err(GitError::Failed { message }) ==> message@ == trimmed(
            lossy_text(run.unwrap().stderr@),
        ),
        !(r matches Err(GitError::Unexpected { .. })),
{
    match capture(run) {
        Ok(out) => {
            let chars = chars_of(out.as_str());
            Ok(string_of(trim(chars.as_slice())))
        },
        Err(e) => Err(e),
    }
}

/// The arguments that ask whether there is a commit.
pub fn has_head_args() -> (r: Vec<String>)
    ensures
        texts(r@) == seq!["rev-parse"@, "--verify"@, "HEAD"@],
{
    let r = vec!["rev-parse".to_string(), "--verify".to_string(), "HEAD".to_string()];
    assert(texts(r@) =~= seq!["rev-parse"@, "--verify"@, "HEAD"@]);
    r
}

/// Whether the repository has at least one commit (a resolvable HEAD), from the
/// answer to `has_head_args`.
pub fn has_head(run: &Option<CommandOutput>) -> (r: bool)
    ensures
        r == succeeded(*run),
{
    is_success(run)
}

// ---- Changed files -----------------------------------------------------------

/// A single entry from `git status --porcelain`.
#[derive(Clone, Debug)]
pub struct ChangedFile {
    /// Path relative to the repository root.
    pub path: String,
    /// Two-character status code, e.g. " M", "??", "A ", "MM".
    pub status: String,
}

/// A path and its status.
#[verifier::ext_equal]
pub struct StatusModel {
    pub path: Seq<char>,
    pub status: Seq<char>,
}

impl View for ChangedFile {
    type V = StatusModel;

    open spec fn view(&self) -> StatusModel {
        StatusModel { path: self.path@, status: self.status@ }
    }
}

/// The paths and statuses of a list.
pub open spec fn status_models(v: Seq<ChangedFile>) -> Seq<StatusModel> {
    v.map_values(|c: ChangedFile| c@)
}

/// The marker for a status whose first two characters are `x` and `y`, as far
/// as it has them.
pub open spec fn marker_of(x: Option<char>, y: Option<char>) -> char {
    if x == Some('?') {
        '?'
    } else if x == Some('A') {
        'A'
    } else if x == Some('D') || y == Some('D') {
        'D'
    } else if x == Some('R') {
        'R'
    } else if x == Some('M') || (x == Some(' ') && y == Some('M')) {
        'M'
    } else {
        '~'
    }
}

/// The byte at index `i` of `s` as an ASCII character, where there is a byte.
pub open spec fn byte_at(s: Seq<u8>, i: int) -> Option<char> {
    if 0 <= i < s.len() { Some(s[i] as char) } else { None }
}

impl ChangedFile {
    /// A compact one-character marker for the file list.
    pub fn marker(&self) -> (c: char)
        ensures
            c == marker_of(
                byte_at(vstd::utf8::encode_utf8(self.status@), 0),
                byte_at(vstd::utf8::encode_utf8(self.status@), 1),
            ),
    {
        let s = self.status.as_str().as_bytes();
        let x = if s.len() > 0 {
            s[0]
        } else {
            0
        };
        let y = if s.len() > 1 {
            s[1]
        } else {
            0
        };
        if x == 63 {
            '?'
        } else if x == 65 {
            'A'
        } else if x == 68 || y == 68 {
            'D'
        } else if x == 82 {
            'R'
        } else if x == 77 || (x == 32 && y == 77) {
            'M'
        } else {
            '~'
        }
    }
}

/// The arguments that ask for the changed files. Untracked files are listed one
/// by one, not as the directories they are in.
pub fn changed_files_args() -> (r: Vec<String>)
    ensures
        texts(r@) == seq![
            "-c"@,
            "core.quotepath=false"@,
            "status"@,
            "--porcelain=v1"@,
            "--untracked-files=all"@,
            "--no-renames"@,
        ],
{
    let r = vec![
        "-c".to_string(),
        "core.quotepath=false".to_string(),
        "status".to_string(),
        "--porcelain=v1".to_string(),
        "--untracked-files=all".to_string(),
        "--no-renames".to_string(),
    ];
    assert(texts(r@) =~= seq![
        "-c"@,
        "core.quotepath=false"@,
        "status"@,
        "--porcelain=v1"@,
        "--untracked-files=all"@,
        "--no-renames"@,
    ]);
    r
}

/// Whether a line of the status can be cut after its second and third byte.
/// Lines of fewer than four bytes are passed over.
pub open spec fn is_cuttable(line: Seq<char>) -> bool {
    byte_len(line) >= 4 ==> is_boundary(line, 2) && is_boundary(line, 3)
}

/// Whether every line of the status can be cut.
pub open spec fn is_porcelain(out: Seq<char>) -> bool {
    forall|i: int| 0 <= i < lines_of(out).len() ==> is_cuttable(#[trigger] lines_of(out)[i])
}

/// Whether every line of the status can be cut.
pub fn has_status_lines(out: &str) -> (r: bool)
    ensures
        r == is_porcelain(out@),
{
    let chars = chars_of(out);
    let all = lines(chars.as_slice());
    let mut i: usize = 0;
    while i < all.len()
        invariant
            i <= all@.len(),
            slices(all@) == lines_of(out@),
            forall|j: int| 0 <= j < i ==> is_cuttable(#[trigger] lines_of(out@)[j]),
        decreases all@.len() - i,
    {
        let line = all[i];
        assert(slices(all@)[i as int] == line@);
        if bytes_in(line) >= 4 && (boundary(line, 2).is_none() || boundary(line, 3).is_none()) {
            return false;
        }
        i += 1;
    }
    true
}

/// The entry of a line `XY <path>` of the status.
pub open spec fn status_entry(line: Seq<char>) -> StatusModel {
    StatusModel {
        path: line.skip(chars_before(line, 3)),
        status: line.take(chars_before(line, 2)),
    }
}

/// The entries of the lines of the status.
pub open spec fn status_entries(lines: Seq<Seq<char>>) -> Seq<StatusModel>
    decreases lines.len(),
{
    if lines.len() == 0 {
        Seq::empty()
    } else if byte_len(lines.last()) < 4 {
        status_entries(lines.drop_last())
    } else {
        status_entries(lines.drop_last()).push(status_entry(lines.last()))
    }
}

/// All changed files (tracked modifications and untracked), relative to the
/// root, from what the command of `changed_files_args` printed.
pub fn changed_files(out: &str) -> (r: Vec<ChangedFile>)
    requires
        is_porcelain(out@),
    ensures
        status_models(r@) == status_entries(lines_of(out@)),
{
    let chars = chars_of(out);
    let all = lines(chars.as_slice());
    let mut files: Vec<ChangedFile> = Vec::new();
    let mut i: usize = 0;
    assert(status_models(files@) =~= Seq::empty());
    assert(lines_of(out@).take(0) =~= Seq::empty());
    while i < all.len()
        invariant
            i <= all@.len(),
            slices(all@) == lines_of(out@),
            is_porcelain(out@),
            status_models(files@) == status_entries(lines_of(out@).take(i as int)),
        decreases all@.len() - i,
    {
        let line = all[i];
        proof {
            assert(slices(all@)[i as int] == line@);
            assert(is_cuttable(lines_of(out@)[i as int]));
            assert(lines_of(out@).take(i + 1).drop_last() =~= lines_of(out@).take(i as int));
        }
        if bytes_in(line) >= 4 {
            if let (Some(two), Some(three)) = (boundary(line, 2), boundary(line, 3)) {
                let ghost before = status_models(files@);
                let file = ChangedFile {
                    path: string_of(slice_subrange(line, three, line.len())),
                    status: string_of(slice_subrange(line, 0, two)),
                };
                files.push(file);
                proof {
                    assert(file@ =~= status_entry(line@));
                    assert(status_models(files@) =~= before.push(file@));
                }
            }
        }
        i += 1;
    }
    assert(lines_of(out@).take(i as int) =~= lines_of(out@));
    files
}

/// A status and a path as a line of the status.
pub open spec fn status_line(f: StatusModel) -> Seq<char> {
    f.status + seq![' '] + f.path
}

/// Whether a line of the status shows a file: its status takes two bytes, what comes
/// between takes one, and the rest is the path.
pub open spec fn shows_file(line: Seq<char>, f: StatusModel) -> bool {
    exists|gap: Seq<char>|
        line == #[trigger] (f.status + gap) + f.path && vstd::utf8::encode_utf8(f.status).len() == 2
            && vstd::utf8::encode_utf8(gap).len() == 1
}

proof fn lemma_shows_file(line: Seq<char>)
    requires
        byte_len(line) >= 4,
        is_cuttable(line),
    ensures
        shows_file(line, status_entry(line)),
{
    let (two, three) = (chars_before(line, 2), chars_before(line, 3));
    assert(0 <= two <= line.len() && byte_len(line.take(two)) == 2);
    assert(0 <= three <= line.len() && byte_len(line.take(three)) == 3);
    if three < two {
        lemma_byte_len_grows(line, three, two);
    }
    let gap = line.subrange(two, three);
    assert(line.take(three) =~= line.take(two) + gap);
    lemma_byte_len_add(line.take(two), gap);
    byte_len_is_utf8_length(line.take(two));
    byte_len_is_utf8_length(gap);
    let f = status_entry(line);
    assert(line =~= (f.status + gap) + f.path);
}

/// The changed files are the lines of at least four bytes, each of them one file and
/// in their order, whatever the status is.
pub proof fn one_file_per_status_line(out: Seq<char>)
    requires
        is_porcelain(out),
    ensures
        ({
            let long = lines_of(out).filter(|l: Seq<char>| vstd::utf8::encode_utf8(l).len() >= 4);
            let files = status_entries(lines_of(out));
            &&& files.len() == long.len()
            &&& forall|i: int| 0 <= i < files.len() ==> shows_file(long[i], #[trigger] files[i])
        }),
{
    lemma_status_lines(lines_of(out));
}

proof fn lemma_status_lines(lines: Seq<Seq<char>>)
    requires
        forall|i: int| 0 <= i < lines.len() ==> is_cuttable(#[trigger] lines[i]),
    ensures
        ({
            let long = lines.filter(|l: Seq<char>| vstd::utf8::encode_utf8(l).len() >= 4);
            let files = status_entries(lines);
            &&& files.len() == long.len()
            &&& forall|i: int| 0 <= i < files.len() ==> shows_file(long[i], #[trigger] files[i])
        }),
    decreases lines.len(),
{
    reveal(Seq::filter);
    if lines.len() > 0 {
        let (init, line) = (lines.drop_last(), lines.last());
        assert forall|i: int| 0 <= i < init.len() implies is_cuttable(#[trigger] init[i]) by {
            assert(init[i] == lines[i]);
        }
        lemma_status_lines(init);
        byte_len_is_utf8_length(line);
        assert(is_cuttable(lines[lines.len() - 1]));
        if byte_len(line) >= 4 {
            lemma_shows_file(line);
        }
    }
}

proof fn lemma_one_byte(c: char)
    requires
        (c as u32) < 128,
    ensures
        byte_len(seq![c]) == 1,
{
    assert(seq![c].drop_last() =~= seq![]);
    assert(byte_len(seq![c].drop_last()) == 0);
}

/// A status of two ASCII characters and a path make a line that shows them.
proof fn lemma_status_line(f: StatusModel)
    requires
        f.status.len() == 2,
        (f.status[0] as u32) < 128,
        (f.status[1] as u32) < 128,
        f.path.len() > 0,
    ensures
        byte_len(status_line(f)) >= 4,
        is_cuttable(status_line(f)),
        status_entry(status_line(f)) == f,
{
    let line = status_line(f);
    let (x, y) = (f.status[0], f.status[1]);
    lemma_one_byte(x);
    lemma_one_byte(y);
    lemma_one_byte(' ');
    lemma_byte_len_add(seq![x], seq![y]);
    assert(line.take(2) =~= seq![x] + seq![y]);
    lemma_byte_len_add(line.take(2), seq![' ']);
    assert(line.take(3) =~= line.take(2) + seq![' ']);
    lemma_byte_len_grows(line, 3, line.len() as int);
    assert(line.take(line.len() as int) =~= line);
    lemma_boundary_unique(line, 2, 2);
    lemma_boundary_unique(line, 3, 3);
    assert(line.take(2) =~= f.status);
    assert(line.skip(3) =~= f.path);
}

/// The lines of a status, for the given files.
pub open spec fn status_lines(files: Seq<StatusModel>) -> Seq<Seq<char>> {
    files.map_values(|f: StatusModel| status_line(f))
}

/// A printed status is read back: for files with a status of two ASCII characters
/// and a path without line breaks, the lines of the status give just these files.
pub proof fn status_is_read_back(files: Seq<StatusModel>)
    requires
        forall|i: int|
            0 <= i < files.len() ==> (#[trigger] files[i]).status.len() == 2 && (files[i].status[0] as u32) < 128
                && (files[i].status[1] as u32) < 128 && files[i].path.len() > 0 && files[i].path.last() != '\r',
        forall|i: int| 0 <= i < files.len() ==> is_single((#[trigger] files[i]).path) && is_single(files[i].status),
    ensures
        is_porcelain(terminated(status_lines(files))),
        status_entries(lines_of(terminated(status_lines(files)))) == files,
{
    let v = status_lines(files);
    assert forall|i: int| 0 <= i < v.len() implies is_single(#[trigger] v[i]) && v[i].last() != '\r' by {
        let f = files[i];
        assert(v[i] == status_line(f));
        assert forall|k: int| 0 <= k < v[i].len() implies #[trigger] v[i][k] != '\n' by {
            if k < 2 {
                assert(v[i][k] == f.status[k]);
            } else if k > 2 {
                assert(v[i][k] == f.path[k - 3]);
            }
        }
        assert(v[i].last() == f.path.last());
    }
    lines_are_read_back(v, Seq::empty());
    assert forall|i: int| 0 <= i < v.len() implies is_cuttable(#[trigger] v[i]) by {
        lemma_status_line(files[i]);
    }
    lemma_status_entries(files);
}

proof fn lemma_status_entries(files: Seq<StatusModel>)
    requires
        forall|i: int|
            0 <= i < files.len() ==> (#[trigger] files[i]).status.len() == 2 && (files[i].status[0] as u32) < 128
                && (files[i].status[1] as u32) < 128 && files[i].path.len() > 0,
    ensures
        status_entries(status_lines(files)) == files,
    decreases files.len(),
{
    if files.len() == 0 {
        assert(status_lines(files) =~= Seq::empty());
        assert(status_entries(status_lines(files)) =~= files);
    } else {
        let init = files.drop_last();
        assert forall|i: int| 0 <= i < init.len() implies (#[trigger] init[i]).status.len() == 2 && (
        init[i].status[0] as u32) < 128 && (init[i].status[1] as u32) < 128 && init[i].path.len() > 0 by {
            assert(init[i] == files[i]);
        }
        lemma_status_entries(init);
        assert(files[files.len() - 1].status.len() == 2);
        lemma_status_line(files.last());
        assert(status_lines(files).drop_last() =~= status_lines(init));
        assert(status_lines(files).last() == status_line(files.last()));
        assert(init.push(files.last()) =~= files);
    }
}

// ---- All files ---------------------------------------------------------------

/// The arguments that ask for all files, tracked and untracked, but for the
/// ignored ones.
pub fn all_files_args() -> (r: Vec<String>)
    ensures
        texts(r@) == seq![
            "-c"@,
            "core.quotepath=false"@,
            "ls-files"@,
            "--cached"@,
            "--others"@,
            "--exclude-standard"@,
            "-z"@,
        ],
{
    let r = vec![
        "-c".to_string(),
        "core.quotepath=false".to_string(),
        "ls-files".to_string(),
        "--cached".to_string(),
        "--others".to_string(),
        "--exclude-standard".to_string(),
        "-z".to_string(),
    ];
    assert(texts(r@) =~= seq![
        "-c"@,
        "core.quotepath=false"@,
        "ls-files"@,
        "--cached"@,
        "--others"@,
        "--exclude-standard"@,
        "-z"@,
    ]);
    r
}

/// Whether `a` comes before `b` in the dictionary order of their characters.
pub open spec fn sorts_before(a: Seq<char>, b: Seq<char>) -> bool
    decreases a.len(),
{
    if b.len() == 0 {
        false
    } else if a.len() == 0 {
        true
    } else if a[0] != b[0] {
        a[0] < b[0]
    } else {
        sorts_before(a.skip(1), b.skip(1))
    }
}

/// Whether the texts are in order and none stands twice.
pub open spec fn is_sorted(v: Seq<Seq<char>>) -> bool {
    forall|i: int, j: int| 0 <= i < j < v.len() ==> sorts_before(#[trigger] v[i], #[trigger] v[j])
}

proof fn lemma_sorts_before_trans(a: Seq<char>, b: Seq<char>, c: Seq<char>)
    requires
        sorts_before(a, b),
        sorts_before(b, c),
    ensures
        sorts_before(a, c),
    decreases a.len(),
{
    if a.len() > 0 && a[0] == b[0] && b[0] == c[0] {
        lemma_sorts_before_trans(a.skip(1), b.skip(1), c.skip(1));
    }
}

proof fn lemma_sorts_before_total(a: Seq<char>, b: Seq<char>)
    ensures
        sorts_before(a, b) || sorts_before(b, a) || a == b,
        !(sorts_before(a, b) && sorts_before(b, a)),
        a == b ==> !sorts_before(a, b),
    decreases a.len(),
{
    if a.len() > 0 && b.len() > 0 && a[0] == b[0] {
        lemma_sorts_before_total(a.skip(1), b.skip(1));
        assert(a =~= seq![a[0]] + a.skip(1));
        assert(b =~= seq![b[0]] + b.skip(1));
    } else if a.len() == 0 && b.len() == 0 {
        assert(a =~= b);
    }
}

/// Sorted lists of the same texts are the same.
pub proof fn sorted_list_is_unique(a: Seq<Seq<char>>, b: Seq<Seq<char>>)
    requires
        is_sorted(a),
        is_sorted(b),
        forall|t: Seq<char>| a.contains(t) <==> b.contains(t),
    ensures
        a == b,
    decreases a.len(),
{
    if a.len() == 0 {
        if b.len() > 0 {
            assert(b.contains(b[0]));
        }
        assert(a =~= b);
    } else {
        assert(a.contains(a.last()));
        let k = choose|k: int| 0 <= k < b.len() && b[k] == a.last();
        assert(b.contains(b.last()));
        let m = choose|m: int| 0 <= m < a.len() && a[m] == b.last();
        lemma_sorts_before_total(a.last(), b.last());
        assert(k == b.len() - 1) by {
            if k < b.len() - 1 {
                assert(sorts_before(b[k], b[b.len() - 1]));
                if m < a.len() - 1 {
                    assert(sorts_before(a[m], a[a.len() - 1]));
                }
            }
        }
        let (a1, b1) = (a.drop_last(), b.drop_last());
        assert forall|t: Seq<char>| a1.contains(t) <==> b1.contains(t) by {
            if a1.contains(t) {
                let i = choose|i: int| 0 <= i < a1.len() && a1[i] == t;
                assert(a[i] == t);
                assert(b.contains(t));
                let j = choose|j: int| 0 <= j < b.len() && b[j] == t;
                assert(sorts_before(a[i], a[a.len() - 1]));
                lemma_sorts_before_total(t, a.last());
                assert(b1[j] == t);
            }
            if b1.contains(t) {
                let j = choose|j: int| 0 <= j < b1.len() && b1[j] == t;
                assert(b[j] == t);
                assert(a.contains(t));
                let i = choose|i: int| 0 <= i < a.len() && a[i] == t;
                assert(sorts_before(b[j], b[b.len() - 1]));
                lemma_sorts_before_total(t, b.last());
                assert(a1[i] == t);
            }
        }
        sorted_list_is_unique(a1, b1);
        assert(a =~= a1.push(a.last()));
        assert(b =~= b1.push(b.last()));
    }
}

/// How two texts stand to each other in the dictionary order.
enum Place {
    Before,
    Same,
    After,
}

fn place(a: &[char], b: &[char]) -> (r: Place)
    ensures
        r is Before <==> sorts_before(a@, b@),
        r is Same <==> a@ == b@,
        r is After <==> sorts_before(b@, a@),
{
    let mut i: usize = 0;
    proof {
        lemma_sorts_before_total(a@, b@);
        assert(a@.skip(0) =~= a@);
        assert(b@.skip(0) =~= b@);
    }
    while i < a.len() && i < b.len() && a[i] == b[i]
        invariant
            i <= a@.len(),
            i <= b@.len(),
            sorts_before(a@, b@) == sorts_before(a@.skip(i as int), b@.skip(i as int)),
            sorts_before(b@, a@) == sorts_before(b@.skip(i as int), a@.skip(i as int)),
            a@.take(i as int) == b@.take(i as int),
        decreases a@.len() - i,
    {
        proof {
            assert(a@.skip(i as int).skip(1) =~= a@.skip(i + 1));
            assert(b@.skip(i as int).skip(1) =~= b@.skip(i + 1));
            assert(a@.take(i + 1) =~= a@.take(i as int).push(a@[i as int]));
            assert(b@.take(i + 1) =~= b@.take(i as int).push(b@[i as int]));
        }
        i += 1;
    }
    proof {
        lemma_sorts_before_total(a@, b@);
        if i < a@.len() {
            assert(a@.skip(i as int)[0] == a@[i as int]);
        }
        if i < b@.len() {
            assert(b@.skip(i as int)[0] == b@[i as int]);
        }
        if i == a@.len() && i == b@.len() {
            assert(a@ =~= a@.take(i as int));
            assert(b@ =~= b@.take(i as int));
        }
    }
    if i < a.len() && i < b.len() {
        if a[i] < b[i] {
            Place::Before
        } else {
            Place::After
        }
    } else if i < b.len() {
        Place::Before
    } else if i < a.len() {
        Place::After
    } else {
        Place::Same
    }
}

/// The texts of two sorted lists as one.
fn merge<'a>(a: &Vec<&'a [char]>, b: &Vec<&'a [char]>) -> (r: Vec<&'a [char]>)
    requires
        is_sorted(slices(a@)),
        is_sorted(slices(b@)),
    ensures
        is_sorted(slices(r@)),
        forall|t: Seq<char>|
            slices(r@).contains(t) <==> slices(a@).contains(t) || slices(b@).contains(t),
{
    let mut r: Vec<&'a [char]> = Vec::new();
    let mut i: usize = 0;
    let mut j: usize = 0;
    let ghost (x, y) = (slices(a@), slices(b@));
    while i < a.len() || j < b.len()
        invariant
            i <= a@.len(),
            j <= b@.len(),
            x == slices(a@),
            y == slices(b@),
            is_sorted(x),
            is_sorted(y),
            is_sorted(slices(r@)),
            forall|t: Seq<char>|
                slices(r@).contains(t) <==> x.take(i as int).contains(t) || y.take(j as int).contains(t),
            forall|k: int| 0 <= k < r@.len() && i < x.len() ==> sorts_before(#[trigger] slices(r@)[k], x[i as int]),
            forall|k: int| 0 <= k < r@.len() && j < y.len() ==> sorts_before(#[trigger] slices(r@)[k], y[j as int]),
        decreases a@.len() - i + b@.len() - j,
    {
        let next = if i == a.len() {
            Place::After
        } else if j == b.len() {
            Place::Before
        } else {
            place(a[i], b[j])
        };
        let ghost before = slices(r@);
        let ghost (i0, j0) = (i as int, j as int);
        let taken = match next {
            Place::After => b[j],
            _ => a[i],
        };
        r.push(taken);
        match next {
            Place::Before => {
                i += 1;
            },
            Place::Same => {
                i += 1;
                j += 1;
            },
            Place::After => {
                j += 1;
            },
        }
        proof {
            let after = slices(r@);
            assert(after =~= before.push(taken@));
            assert(i0 < x.len() ==> x[i0] == a@[i0]@);
            assert(j0 < y.len() ==> y[j0] == b@[j0]@);
            lemma_took(before, taken@, after);
            if i > i0 {
                assert(x.take(i as int) =~= x.take(i0).push(x[i0]));
                lemma_took(x.take(i0), x[i0], x.take(i as int));
            }
            if j > j0 {
                assert(y.take(j as int) =~= y.take(j0).push(y[j0]));
                lemma_took(y.take(j0), y[j0], y.take(j as int));
            }
            assert forall|t: Seq<char>| after.contains(t) <==> x.take(i as int).contains(t) || y.take(
                j as int,
            ).contains(t) by {
                assert(after.contains(t) <==> before.contains(t) || t == taken@);
                assert(before.contains(t) <==> x.take(i0).contains(t) || y.take(j0).contains(t));
                if i > i0 {
                    assert(x.take(i as int).contains(t) <==> x.take(i0).contains(t) || t == x[i0]);
                }
                if j > j0 {
                    assert(y.take(j as int).contains(t) <==> y.take(j0).contains(t) || t == y[j0]);
                }
            }
            assert forall|k: int| 0 <= k < after.len() && i < x.len() implies sorts_before(
                #[trigger] after[k],
                x[i as int],
            ) by {
                if k < before.len() {
                    assert(sorts_before(before[k], x[i0]));
                    if i > i0 {
                        lemma_sorts_before_trans(before[k], x[i0], x[i as int]);
                    }
                }
            }
            assert forall|k: int| 0 <= k < after.len() && j < y.len() implies sorts_before(
                #[trigger] after[k],
                y[j as int],
            ) by {
                if k < before.len() {
                    assert(sorts_before(before[k], y[j0]));
                    if j > j0 {
                        lemma_sorts_before_trans(before[k], y[j0], y[j as int]);
                    }
                }
            }
            assert forall|k: int, m: int| 0 <= k < m < after.len() implies sorts_before(
                #[trigger] after[k],
                #[trigger] after[m],
            ) by {
                if m == before.len() {
                    assert(sorts_before(before[k], taken@));
                } else {
                    assert(sorts_before(before[k], before[m]));
                }
            }
        }
    }
    assert(x.take(i as int) =~= x);
    assert(y.take(j as int) =~= y);
    r
}

/// A list with one text more holds that text and what it held.
proof fn lemma_took(v: Seq<Seq<char>>, t: Seq<char>, w: Seq<Seq<char>>)
    requires
        w == v.push(t),
    ensures
        forall|u: Seq<char>| #[trigger] w.contains(u) <==> v.contains(u) || u == t,
{
    assert forall|u: Seq<char>| #[trigger] w.contains(u) <==> v.contains(u) || u == t by {
        if v.contains(u) {
            let i = choose|i: int| 0 <= i < v.len() && v[i] == u;
            assert(w[i] == u);
        }
        assert(w[v.len() as int] == t);
        if w.contains(u) {
            let i = choose|i: int| 0 <= i < w.len() && w[i] == u;
            if i < v.len() {
                assert(v[i] == u);
            }
        }
    }
}

/// The texts from `from` to `to` that are not empty, sorted, each once.
fn sort<'a>(v: &Vec<&'a [char]>, from: usize, to: usize) -> (r: Vec<&'a [char]>)
    requires
        from <= to <= v@.len(),
    ensures
        is_sorted(slices(r@)),
        forall|t: Seq<char>|
            slices(r@).contains(t) <==> t.len() > 0 && slices(v@).subrange(from as int, to as int).contains(t),
    decreases to - from,
{
    let ghost part = slices(v@).subrange(from as int, to as int);
    if to - from >= 2 {
        let mid = from + (to - from) / 2;
        let left = sort(v, from, mid);
        let right = sort(v, mid, to);
        proof {
            let (p, q) = (slices(v@).subrange(from as int, mid as int), slices(v@).subrange(mid as int, to as int));
            assert(part =~= p + q);
            lemma_joined_contains(p, q);
        }
        merge(&left, &right)
    } else {
        let mut r: Vec<&'a [char]> = Vec::new();
        if to - from == 1 && v[from].len() > 0 {
            r.push(v[from]);
            assert(slices(r@)[0] == v@[from as int]@);
        }
        if to - from == 1 {
            assert(part[0] == v@[from as int]@);
        }
        r
    }
}

proof fn lemma_joined_contains(p: Seq<Seq<char>>, q: Seq<Seq<char>>)
    ensures
        forall|t: Seq<char>| (p + q).contains(t) <==> p.contains(t) || q.contains(t),
{
    assert forall|t: Seq<char>| (p + q).contains(t) <==> p.contains(t) || q.contains(t) by {
        if p.contains(t) {
            let i = choose|i: int| 0 <= i < p.len() && p[i] == t;
            assert((p + q)[i] == t);
        }
        if q.contains(t) {
            let i = choose|i: int| 0 <= i < q.len() && q[i] == t;
            assert((p + q)[p.len() + i] == t);
        }
    }
}

/// All tracked and untracked files, excluding ignored ones, from what the
/// command of `all_files_args` printed: sorted, each once.
pub fn all_files(out: &str) -> (r: Vec<String>)
    ensures
        is_sorted(texts(r@)),
        forall|t: Seq<char>| texts(r@).contains(t) <==> t.len() > 0 && pieces(out@, '\0').contains(t),
{
    let chars = chars_of(out);
    let all = split(chars.as_slice(), '\0');
    let sorted = sort(&all, 0, all.len());
    let mut r: Vec<String> = Vec::new();
    let mut i: usize = 0;
    while i < sorted.len()
        invariant
            i <= sorted@.len(),
            r@.len() == i,
            forall|j: int| 0 <= j < i ==> (#[trigger] r@[j])@ == sorted@[j]@,
        decreases sorted@.len() - i,
    {
        r.push(string_of(sorted[i]));
        i += 1;
    }
    assert(texts(r@) =~= slices(sorted@));
    assert(slices(all@).subrange(0, all@.len() as int) =~= slices(all@));
    r
}

/// The arguments that ask for the untracked files that are not ignored.
pub fn untracked_files_args() -> (r: Vec<String>)
    ensures
        texts(r@) == seq![
            "-c"@,
            "core.quotepath=false"@,
            "ls-files"@,
            "--others"@,
            "--exclude-standard"@,
        ],
{
    let r = vec![
        "-c".to_string(),
        "core.quotepath=false".to_string(),
        "ls-files".to_string(),
        "--others".to_string(),
        "--exclude-standard".to_string(),
    ];
    assert(texts(r@) =~= seq![
        "-c"@,
        "core.quotepath=false"@,
        "ls-files"@,
        "--others"@,
        "--exclude-standard"@,
    ]);
    r
}

/// Untracked (but not ignored) files relative to the root, from what the command
/// of `untracked_files_args` printed.
pub fn untracked_files(out: &str) -> (r: Vec<String>)
    ensures
        texts(r@) == lines_of(out@),
{
    let chars = chars_of(out);
    let all = lines(chars.as_slice());
    let mut r: Vec<String> = Vec::new();
    let mut i: usize = 0;
    while i < all.len()
        invariant
            i <= all@.len(),
            r@.len() == i,
            forall|j: int| 0 <= j < i ==> (#[trigger] r@[j])@ == all@[j]@,
        decreases all@.len() - i,
    {
        r.push(string_of(all[i]));
        i += 1;
    }
    assert(texts(r@) =~= slices(all@));
    r
}

// ---- Diffs -------------------------------------------------------------------

/// The arguments that ask whether `path` is tracked.
pub fn is_tracked_args(path: &str) -> (r: Vec<String>)
    ensures
        texts(r@) == seq!["ls-files"@, "--error-unmatch"@, "--"@, path@],
{
    let r = vec![
        "ls-files".to_string(),
        "--error-unmatch".to_string(),
        "--".to_string(),
        path.to_string(),
    ];
    assert(texts(r@) =~= seq!["ls-files"@, "--error-unmatch"@, "--"@, path@]);
    r
}

/// Whether a path is tracked by git, from the answer to `is_tracked_args`.
pub fn is_tracked(run: &Option<CommandOutput>) -> (r: bool)
    ensures
        r == succeeded(*run),
{
    is_success(run)
}

/// The arguments that ask whether `path` differs: from HEAD, or the index from
/// nothing where there is no HEAD.
pub fn file_has_diff_args(has_head: bool, path: &str) -> (r: Vec<String>)
    ensures
        texts(r@) == (if has_head {
            seq!["diff"@, "--quiet"@, "HEAD"@, "--"@, path@]
        } else {
            seq!["diff"@, "--cached"@, "--quiet"@, "--"@, path@]
        }),
{
    if has_head {
        let r = vec![
            "diff".to_string(),
            "--quiet".to_string(),
            "HEAD".to_string(),
            "--".to_string(),
            path.to_string(),
        ];
        assert(texts(r@) =~= seq!["diff"@, "--quiet"@, "HEAD"@, "--"@, path@]);
        r
    } else {
        let r = vec![
            "diff".to_string(),
            "--cached".to_string(),
            "--quiet".to_string(),
            "--".to_string(),
            path.to_string(),
        ];
        assert(texts(r@) =~= seq!["diff"@, "--cached"@, "--quiet"@, "--"@, path@]);
        r
    }
}

/// Whether a tracked file differs from HEAD (or the index if there is no HEAD),
/// from the answer to `file_has_diff_args`: the exit code 0 says that it does
/// not, 1 that it does, and any other is an error.
pub fn file_has_diff(run: &Option<CommandOutput>) -> (r: Result<bool, GitError>)
    ensures
        r == Ok::<bool, GitError>(false) <==> run is Some && run.unwrap().code == Some(0i32),
        r == Ok::<bool, GitError>(true) <==> run is Some && run.unwrap().code == Some(1i32),
        r matches Err(GitError::NotRun) <==> run is None,
        r matches Err(GitError::Unexpected { code }) ==> code == run.unwrap().code,
        !(r matches Err(GitError::Failed { .. })),
{
    match run {
        Some(output) => match output.code {
            Some(0) => Ok(false),
            Some(1) => Ok(true),
            code => Err(GitError::Unexpected { code }),
        },
        None => Err(GitError::NotRun),
    }
}

/// The settings under which diffs are made: literal paths and the standard
/// prefixes, whatever the user has configured.
pub open spec fn diff_settings() -> Seq<Seq<char>> {
    seq![
        "-c"@,
        "core.quotepath=false"@,
        "-c"@,
        "diff.mnemonicPrefix=false"@,
        "-c"@,
        "diff.noprefix=false"@,
    ]
}

fn diff_command() -> (r: Vec<String>)
    ensures
        texts(r@) == diff_settings(),
{
    let r = vec![
        "-c".to_string(),
        "core.quotepath=false".to_string(),
        "-c".to_string(),
        "diff.mnemonicPrefix=false".to_string(),
        "-c".to_string(),
        "diff.noprefix=false".to_string(),
    ];
    assert(texts(r@) =~= diff_settings());
    r
}

/// What tracked files are compared with: HEAD, or nothing where there is none.
pub open spec fn compared_with(has_head: bool) -> Seq<char> {
    if has_head { "HEAD"@ } else { "--cached"@ }
}

/// The arguments that ask for the diff of all tracked files.
pub fn project_diff_args(has_head: bool) -> (r: Vec<String>)
    ensures
        texts(r@) == diff_settings() + seq!["diff"@, "--no-color"@, compared_with(has_head), "--"@],
{
    let mut r = diff_command();
    r.push("diff".to_string());
    r.push("--no-color".to_string());
    if has_head {
        r.push("HEAD".to_string());
    } else {
        r.push("--cached".to_string());
    }
    r.push("--".to_string());
    assert(texts(r@) =~= diff_settings() + seq![
        "diff"@,
        "--no-color"@,
        compared_with(has_head),
        "--"@,
    ]);
    r
}

/// The arguments that ask for the diff of one tracked file.
pub fn file_diff_args(has_head: bool, path: &str) -> (r: Vec<String>)
    ensures
        texts(r@) == diff_settings() + seq![
            "diff"@,
            "--no-color"@,
            compared_with(has_head),
            "--"@,
            path@,
        ],
{
    let mut r = project_diff_args(has_head);
    let ghost before = texts(r@);
    r.push(path.to_string());
    assert(texts(r@) =~= before.push(path@));
    assert(texts(r@) =~= diff_settings() + seq![
        "diff"@,
        "--no-color"@,
        compared_with(has_head),
        "--"@,
        path@,
    ]);
    r
}

/// The arguments that ask for the diff of an untracked file: an addition, as if
/// from an empty file.
pub fn untracked_diff_args(path: &str) -> (r: Vec<String>)
    ensures
        texts(r@) == diff_settings() + seq![
            "diff"@,
            "--no-color"@,
            "--no-index"@,
            "--"@,
            "/dev/null"@,
            path@,
        ],
{
    let mut r = diff_command();
    r.push("diff".to_string());
    r.push("--no-color".to_string());
    r.push("--no-index".to_string());
    r.push("--".to_string());
    r.push("/dev/null".to_string());
    r.push(path.to_string());
    assert(texts(r@) =~= diff_settings() + seq![
        "diff"@,
        "--no-color"@,
        "--no-index"@,
        "--"@,
        "/dev/null"@,
        path@,
    ]);
    r
}

/// Raw unified diff for a single tracked, changed file, from the answer to
/// `file_diff_args`.
pub fn file_diff_raw(run: &Option<CommandOutput>) -> (r: Result<String, GitError>)
    ensures
        r is Ok <==> succeeded(*run),
        r matches Ok(out) ==> out@ == lossy_text(run.unwrap().stdout@),
        r matches Err(GitError::NotRun) <==> run is None,
        r matches Err(GitError::Failed { message }) ==> message@ == trimmed(
            lossy_text(run.unwrap().stderr@),
        ),
        !(r matches Err(GitError::Unexpected { .. })),
{
    capture(run)
}

/// The diff of an untracked file, from the answer to `untracked_diff_args`. The
/// exit code does not count: it says that the files differ, which they always
/// do.
pub fn untracked_diff_raw(run: &Option<CommandOutput>) -> (r: String)
    ensures
        r@ == (match *run {
            Some(output) => lossy_text(output.stdout@),
            None => Seq::empty(),
        }),
{
    match run {
        Some(output) => lossy(output.stdout.as_slice()),
        None => String::new(),
    }
}

/// The texts one after the other.
pub open spec fn concatenated(v: Seq<Seq<char>>) -> Seq<char>
    decreases v.len(),
{
    if v.len() == 0 {
        Seq::empty()
    } else {
        concatenated(v.drop_last()) + v.last()
    }
}

/// Raw (uncolored) unified diff for the whole project: the diff of the tracked
/// files, then those of the untracked ones.
pub fn project_diff_raw(base: &str, untracked: &[String]) -> (r: String)
    ensures
        r@ == base@ + concatenated(texts(untracked@)),
{
    let mut out = base.to_string();
    let mut i: usize = 0;
    assert(texts(untracked@).take(0) =~= Seq::empty());
    assert(base@ + Seq::<char>::empty() =~= base@);
    while i < untracked.len()
        invariant
            i <= untracked@.len(),
            out@ == base@ + concatenated(texts(untracked@).take(i as int)),
        decreases untracked@.len() - i,
    {
        let ghost before = out@;
        push_text(&mut out, untracked[i].as_str());
        proof {
            let upto = texts(untracked@).take(i + 1);
            assert(upto.drop_last() =~= texts(untracked@).take(i as int));
            assert(out@ =~= base@ + concatenated(upto));
        }
        i += 1;
    }
    assert(texts(untracked@).take(i as int) =~= texts(untracked@));
    out
}

// ---- The index of changed lines ----------------------------------------------

/// A changed line: the file it is in, its line there, whether it was added
/// (`+`) or removed (`-`), and what it says.
#[verifier::ext_equal]
pub struct Record {
    pub path: Seq<char>,
    pub line: nat,
    pub sign: char,
    pub text: Seq<char>,
}

impl Record {
    /// The record as a line of the index, `path:line:col:text`.
    pub open spec fn written(self) -> Seq<char> {
        self.path + ":"@ + decimal(self.line) + ":1:"@ + seq![self.sign] + self.text
    }
}

/// The records as an index, a line each.
pub open spec fn written(records: Seq<Record>) -> Seq<char>
    decreases records.len(),
{
    if records.len() == 0 {
        Seq::empty()
    } else {
        written(records.drop_last()) + records.last().written() + "\n"@
    }
}

/// A path in a diff without the prefix of its side. Nothing for `/dev/null`.
pub open spec fn normalized(token: Seq<char>) -> Seq<char> {
    let t = trimmed(token);
    if t == "/dev/null"@ {
        Seq::empty()
    } else if t.len() >= 2 && t[1] == '/' && (t[0] == 'a' || t[0] == 'b' || t[0] == 'c' || t[0] == 'i'
        || t[0] == 'w' || t[0] == 'o') {
        t.skip(2)
    } else {
        t
    }
}

/// What stands before the first comma or space.
pub open spec fn before_comma_or_space(s: Seq<char>) -> Seq<char> {
    let t = s.take(run_before(s, ',') as int);
    t.take(run_before(t, ' ') as int)
}

/// The number after the first `+` of a hunk header; 1 where there is none.
pub open spec fn new_start(rest: Seq<char>) -> nat {
    let p = pieces(rest, '+');
    if p.len() < 2 {
        1
    } else {
        match number_of(trimmed(before_comma_or_space(p[1]))) {
            Some(n) => n as nat,
            None => 1,
        }
    }
}

/// How many lines a hunk header announces on the side that `mark` stands before:
/// the number after the comma, one if there is no comma, none if that side does
/// not start with a number.
pub open spec fn announced(rest: Seq<char>, mark: char) -> nat {
    let p = pieces(rest, mark);
    if p.len() < 2 {
        0
    } else {
        let range = pieces(p[1].take(run_before(p[1], ' ') as int), ',');
        match number_of(range[0]) {
            Some(_) => if range.len() < 2 {
                1
            } else {
                match number_of(range[1]) {
                    Some(n) => n as nat,
                    None => 0,
                }
            },
            None => 0,
        }
    }
}

/// Whether a line looks like one that starts a file or a hunk, or names a file.
pub open spec fn like_header(line: Seq<char>) -> bool {
    begins(line, "+++ "@) || begins(line, "--- "@) || begins(line, "diff "@) || begins(line, "@@"@)
}

/// How many lines of the old file a line of a hunk takes: one if it is removed or
/// context.
pub open spec fn takes_old(sign: char) -> nat {
    if sign == '-' || sign == ' ' { 1 } else { 0 }
}

/// How many lines of the new file a line of a hunk takes: one if it is added or
/// context.
pub open spec fn takes_new(sign: char) -> nat {
    if sign == '+' || sign == ' ' { 1 } else { 0 }
}

/// Whether a line can stand in a hunk: an added line, a removed line, context, or
/// a note such as `\ No newline at end of file`.
pub open spec fn is_body_line(line: Seq<char>) -> bool {
    line.len() > 0 && (line[0] == '+' || line[0] == '-' || line[0] == ' ' || line[0] == '\\')
}

/// How many of the lines that follow a hunk header make up the announced lines of
/// the old and of the new file. `None` if they are not all there.
pub open spec fn hunk_span(following: Seq<Seq<char>>, old_lines: nat, new_lines: nat) -> Option<nat>
    decreases following.len(),
{
    if old_lines == 0 && new_lines == 0 {
        Some(0)
    } else if following.len() == 0 {
        None
    } else {
        let line = following[0];
        if !is_body_line(line) || takes_old(line[0]) > old_lines || takes_new(line[0]) > new_lines {
            None
        } else {
            let old_left = (old_lines - takes_old(line[0])) as nat;
            let new_left = (new_lines - takes_new(line[0])) as nat;
            match hunk_span(following.skip(1), old_left, new_left) {
                Some(n) => Some(n + 1),
                None => None,
            }
        }
    }
}

/// How many of the lines that follow a hunk header belong to its hunk for sure: all
/// those that the header announces, or none if they are not all there.
pub open spec fn sure_lines(header: Seq<char>, following: Seq<Seq<char>>) -> nat {
    let rest = header.skip(2);
    match hunk_span(following, announced(rest, '-'), announced(rest, '+')) {
        Some(n) => n,
        None => 0,
    }
}

/// How far a diff has been indexed: what has been recorded, the file that is
/// being read, the line of it that comes next, and how many of the lines to come
/// belong to the open hunk for sure.
#[verifier::ext_equal]
pub struct IndexModel {
    pub records: Seq<Record>,
    pub path: Seq<char>,
    pub line: nat,
    pub body: nat,
}

impl IndexModel {
    /// Nothing has been read.
    pub open spec fn start() -> IndexModel {
        IndexModel { records: Seq::empty(), path: Seq::empty(), line: 0, body: 0 }
    }

    /// Whether a line is no line of a file: it starts a file or a hunk, or it names
    /// a file. A line that belongs to a hunk for sure is none of these, whatever it
    /// looks like.
    pub open spec fn is_header(self, line: Seq<char>) -> bool {
        self.body == 0 && like_header(line)
    }

    /// Whether a line is an added or a removed one.
    pub open spec fn is_change(self, line: Seq<char>) -> bool {
        !self.is_header(line) && line.len() > 0 && (line[0] == '+' || line[0] == '-')
    }

    /// With a changed line recorded, if the file is known.
    pub open spec fn with(self, sign: char, text: Seq<char>) -> IndexModel {
        if self.path.len() == 0 {
            self
        } else {
            IndexModel {
                records: self.records.push(Record { path: self.path, line: self.line, sign, text }),
                ..self
            }
        }
    }

    /// After a header, with the given lines to follow: one that names the new file,
    /// one that names the old file or starts a file, or one that opens a hunk.
    pub open spec fn read_header(self, line: Seq<char>, following: Seq<Seq<char>>) -> IndexModel {
        if begins(line, "+++ "@) {
            IndexModel { path: normalized(line.skip(4)), ..self }
        } else if begins(line, "--- "@) || begins(line, "diff "@) {
            self
        } else {
            IndexModel { line: new_start(line.skip(2)), body: sure_lines(line, following), ..self }
        }
    }

    /// After a line that is no header. Added and removed lines are recorded; added
    /// lines and context move on in the new file.
    pub open spec fn read_body(self, line: Seq<char>) -> IndexModel {
        let body = if self.body > 0 { (self.body - 1) as nat } else { 0 };
        if line.len() == 0 {
            IndexModel { body, ..self }
        } else if line[0] == '+' {
            IndexModel { line: self.line + 1, body, ..self.with('+', line.skip(1)) }
        } else if line[0] == '-' {
            IndexModel { body, ..self.with('-', line.skip(1)) }
        } else if line[0] == ' ' {
            IndexModel { line: self.line + 1, body, ..self }
        } else {
            IndexModel { body, ..self }
        }
    }

    /// What is known after one more line of the diff, with the given lines to
    /// follow.
    pub open spec fn read(self, line: Seq<char>, following: Seq<Seq<char>>) -> IndexModel {
        if self.is_header(line) {
            self.read_header(line, following)
        } else {
            self.read_body(line)
        }
    }

    /// What is known after the rest of the diff.
    pub open spec fn read_all(self, lines: Seq<Seq<char>>) -> IndexModel
        decreases lines.len(),
    {
        if lines.len() == 0 {
            self
        } else {
            self.read(lines[0], lines.skip(1)).read_all(lines.skip(1))
        }
    }
}

/// What is known after all the lines of a diff.
pub open spec fn indexed(lines: Seq<Seq<char>>) -> IndexModel {
    IndexModel::start().read_all(lines)
}

/// Turns a diff path token into a clean, repository-relative path: without the
/// diff prefix (standard `a/`, `b/` or mnemonic `c/`, `i/`, `w/`, `o/`), and
/// empty for `/dev/null`.
pub fn normalize_diff_path(token: &[char]) -> (r: String)
    ensures
        r@ == normalized(token@),
{
    let t = trim(token);
    if is_text(t, "/dev/null") {
        return String::new();
    }
    if t.len() >= 2 && t[1] == '/' && (t[0] == 'a' || t[0] == 'b' || t[0] == 'c' || t[0] == 'i' || t[0]
        == 'w' || t[0] == 'o') {
        string_of(slice_subrange(t, 2, t.len()))
    } else {
        string_of(t)
    }
}

/// What stands before the first `c`.
fn before_char(s: &[char], c: char) -> (r: &[char])
    ensures
        r@ == s@.take(run_before(s@, c) as int),
{
    proof {
        lemma_run_before(s@, c);
        assert(s@.skip(0) =~= s@);
    }
    let end = find_char(s, 0, c);
    slice_subrange(s, 0, end)
}

fn hunk_new_start(rest: &[char]) -> (r: usize)
    ensures
        r == new_start(rest@),
{
    let p = split(rest, '+');
    if p.len() < 2 {
        1
    } else {
        assert(slices(p@)[1] == p@[1]@);
        match parse_number(trim(before_char(before_char(p[1], ','), ' '))) {
            Some(n) => n,
            None => 1,
        }
    }
}

/// How many lines a hunk header announces on one side.
fn announced_lines(rest: &[char], mark: char) -> (r: usize)
    ensures
        r == announced(rest@, mark),
{
    let p = split(rest, mark);
    if p.len() < 2 {
        return 0;
    }
    assert(slices(p@)[1] == p@[1]@);
    let range = split(before_char(p[1], ' '), ',');
    assert(slices(range@).len() == range@.len());
    assert(slices(range@)[0] == range@[0]@);
    match parse_number(range[0]) {
        Some(_) => if range.len() < 2 {
            1
        } else {
            assert(slices(range@)[1] == range@[1]@);
            match parse_number(range[1]) {
                Some(n) => n,
                None => 0,
            }
        },
        None => 0,
    }
}

/// Parses the new-file start line from a hunk header body like
/// ` -1,4 +2,6 @@ ...`.
pub fn parse_hunk_new_start(rest: &str) -> (r: usize)
    ensures
        r == new_start(rest@),
{
    let chars = chars_of(rest);
    hunk_new_start(chars.as_slice())
}

/// Appends a record, as a line of its own.
fn push_record(out: &mut String, path: &str, line: u128, sign: char, text: &[char])
    ensures
        final(out)@ == old(out)@ + (Record { path: path@, line: line as nat, sign, text: text@ }).written()
            + "\n"@,
{
    push_text(out, path);
    push_text(out, ":");
    push_decimal(out, line);
    push_text(out, ":1:");
    out.push(sign);
    push_chars(out, text);
    push_text(out, "\n");
    assert(out@ =~= old(out)@ + (Record {
        path: path@,
        line: line as nat,
        sign,
        text: text@,
    }).written() + "\n"@);
}

/// A count of lines, with some more before them.
spec fn later(span: Option<nat>, n: int) -> Option<nat> {
    match span {
        Some(k) => Some((k + n) as nat),
        None => None,
    }
}

/// How many of the lines from `from` on belong for sure to the hunk whose header
/// stands before them.
fn count_sure_lines(all: &[&[char]], from: usize, header: &[char]) -> (r: usize)
    requires
        from <= all@.len(),
        header@.len() >= 2,
    ensures
        r == sure_lines(header@, slices(all@).skip(from as int)),
{
    let rest = slice_subrange(header, 2, header.len());
    assert(rest@ =~= header@.skip(2));
    let old_lines = announced_lines(rest, '-');
    let new_lines = announced_lines(rest, '+');
    let mut old_left = old_lines;
    let mut new_left = new_lines;
    let mut i = from;
    let ghost whole = hunk_span(slices(all@).skip(from as int), old_lines as nat, new_lines as nat);
    while old_left > 0 || new_left > 0
        invariant
            from <= i <= all@.len(),
            whole == later(hunk_span(slices(all@).skip(i as int), old_left as nat, new_left as nat), i - from),
            whole == hunk_span(slices(all@).skip(from as int), old_lines as nat, new_lines as nat),
            old_lines == announced(header@.skip(2), '-'),
            new_lines == announced(header@.skip(2), '+'),
        decreases all@.len() - i,
    {
        if i == all.len() {
            return 0;
        }
        let line = all[i];
        proof {
            let here = slices(all@).skip(i as int);
            assert(here[0] == line@);
            assert(here.skip(1) =~= slices(all@).skip(i + 1));
        }
        if line.len() == 0 {
            return 0;
        }
        let sign = line[0];
        if sign != '+' && sign != '-' && sign != ' ' && sign != '\\' {
            return 0;
        }
        if sign == '-' || sign == ' ' {
            if old_left == 0 {
                return 0;
            }
            old_left -= 1;
        }
        if sign == '+' || sign == ' ' {
            if new_left == 0 {
                return 0;
            }
            new_left -= 1;
        }
        i += 1;
    }
    i - from
}

/// Builds a searchable index of the changed lines of a raw unified diff.
///
/// Each added or removed line becomes one `path:line:col:text` record. `line` is
/// the new-file line number (removed lines point at where they were deleted).
/// Context lines are omitted, so that a search covers what changed and nothing
/// else. In a hunk that has all the lines its header announces, a line like
/// `--- old` is a removed one and not the name of a file.
pub fn index_diff(raw: &str) -> (r: String)
    ensures
        r@ == written(indexed(lines_of(raw@)).records),
{
    let chars = chars_of(raw);
    let all = lines(chars.as_slice());
    let mut out = String::new();
    let mut path = String::new();
    let mut new_line: u128 = 0;
    let mut body: usize = 0;
    let mut i: usize = 0;
    let ghost mut state = IndexModel::start();
    assert(slices(all@).skip(0) =~= slices(all@));
    while i < all.len()
        invariant
            i <= all@.len(),
            new_line <= usize::MAX + i,
            indexed(slices(all@)) == state.read_all(slices(all@).skip(i as int)),
            out@ == written(state.records),
            path@ == state.path,
            new_line == state.line,
            body == state.body,
        decreases all@.len() - i,
    {
        let line = all[i];
        let ghost before = state;
        proof {
            reveal_strlit("+++ ");
            reveal_strlit("@@");
            let here = slices(all@).skip(i as int);
            assert(here[0] == line@);
            assert(here.skip(1) =~= slices(all@).skip(i + 1));
            state = state.read(line@, here.skip(1));
        }
        let in_hunk = body > 0;
        if in_hunk {
            body -= 1;
        }
        if !in_hunk && starts_with(line, "+++ ") {
            path = normalize_diff_path(slice_subrange(line, 4, line.len()));
        } else if !in_hunk && (starts_with(line, "--- ") || starts_with(line, "diff ")) {
        } else if !in_hunk && starts_with(line, "@@") {
            new_line = hunk_new_start(slice_subrange(line, 2, line.len())) as u128;
            body = count_sure_lines(all.as_slice(), i + 1, line);
        } else if line.len() > 0 && (line[0] == '+' || line[0] == '-') {
            if !path.as_str().is_empty() {
                push_record(
                    &mut out,
                    path.as_str(),
                    new_line,
                    line[0],
                    slice_subrange(line, 1, line.len()),
                );
                assert(state.records.drop_last() =~= before.records);
            }
            if line[0] == '+' {
                new_line += 1;
            }
        } else if line.len() > 0 && line[0] == ' ' {
            new_line += 1;
        }
        i += 1;
    }
    assert(slices(all@).skip(i as int) =~= Seq::empty());
    out
}

// ---- What the index promises -------------------------------------------------

/// The records as an index, the first before the others.
proof fn lemma_written_first(records: Seq<Record>)
    requires
        records.len() > 0,
    ensures
        written(records) == records[0].written() + "\n"@ + written(records.skip(1)),
    decreases records.len(),
{
    let rest = records.skip(1);
    if records.len() == 1 {
        assert(records.drop_last() =~= Seq::empty());
        assert(rest =~= Seq::empty());
        assert(written(records) =~= records[0].written() + "\n"@ + written(rest));
    } else {
        lemma_written_first(records.drop_last());
        assert(records.drop_last().skip(1) =~= rest.drop_last());
        assert(rest.last() == records.last());
        assert(written(records) =~= records[0].written() + "\n"@ + written(rest));
    }
}

/// Whether a record takes up one line of the index, and all of it.
spec fn is_one_line(r: Record) -> bool {
    !r.written().contains('\n') && r.written().last() != '\r'
}

/// The lines of an index are its records.
proof fn lemma_index_lines(records: Seq<Record>)
    requires
        forall|i: int| 0 <= i < records.len() ==> is_one_line(#[trigger] records[i]),
    ensures
        lines_of(written(records)) == records.map_values(|r: Record| r.written()),
    decreases records.len(),
{
    let want = records.map_values(|r: Record| r.written());
    if records.len() == 0 {
        assert(lines_of(written(records)) =~= want);
    } else {
        reveal_strlit("\n");
        let rest = records.skip(1);
        assert forall|i: int| 0 <= i < rest.len() implies is_one_line(#[trigger] rest[i]) by {
            assert(rest[i] == records[i + 1]);
        }
        lemma_index_lines(rest);
        lemma_written_first(records);
        let (line, text) = (records[0].written(), written(records));
        assert(is_one_line(records[0]));
        let n = line.len() as int;
        assert forall|i: int| 0 <= i < n implies text[i] != '\n' by {
            assert(text[i] == line[i]);
            assert(line.contains(line[i]));
        }
        assert(text[n] == '\n');
        lemma_run_before_is(text, '\n', n);
        assert(text.take(n) =~= line);
        assert(text.skip(n + 1) =~= written(rest));
        assert(without_return(line) == line);
        assert(want =~= seq![line] + rest.map_values(|r: Record| r.written()));
        assert(lines_of(text) =~= want);
    }
}

/// Whether a text has no newline.
spec fn is_unbroken(s: Seq<char>) -> bool {
    forall|i: int| 0 <= i < s.len() ==> #[trigger] s[i] != '\n'
}

proof fn lemma_lines_unbroken(s: Seq<char>)
    ensures
        forall|i: int| 0 <= i < lines_of(s).len() ==> is_unbroken(#[trigger] lines_of(s)[i]),
    decreases s.len(),
{
    if s.len() > 0 {
        let n = run_before(s, '\n') as int;
        lemma_run_before(s, '\n');
        if n < s.len() {
            let rest = s.skip(n + 1);
            lemma_lines_unbroken(rest);
            let all = lines_of(s);
            assert forall|i: int| 0 <= i < all.len() implies is_unbroken(#[trigger] all[i]) by {
                if i > 0 {
                    assert(all[i] == lines_of(rest)[i - 1]);
                }
            }
        }
    }
}

proof fn lemma_trimmed_unbroken(s: Seq<char>)
    requires
        is_unbroken(s),
    ensures
        is_unbroken(trimmed(s)),
{
    lemma_trimmed_start_unbroken(s);
    lemma_trimmed_end_unbroken(trimmed_start(s));
}

proof fn lemma_trimmed_start_unbroken(s: Seq<char>)
    requires
        is_unbroken(s),
    ensures
        is_unbroken(trimmed_start(s)),
    decreases s.len(),
{
    if s.len() > 0 && white_space(s[0]) {
        lemma_trimmed_start_unbroken(s.skip(1));
    }
}

proof fn lemma_trimmed_end_unbroken(s: Seq<char>)
    requires
        is_unbroken(s),
    ensures
        is_unbroken(trimmed_end(s)),
    decreases s.len(),
{
    if s.len() > 0 && white_space(s.last()) {
        lemma_trimmed_end_unbroken(s.drop_last());
    }
}

proof fn lemma_records_unbroken(s: IndexModel, lines: Seq<Seq<char>>)
    requires
        is_unbroken(s.path),
        forall|i: int| 0 <= i < s.records.len() ==> is_unbroken((#[trigger] s.records[i]).written()),
        forall|i: int| 0 <= i < lines.len() ==> is_unbroken(#[trigger] lines[i]),
    ensures
        ({
            let records = s.read_all(lines).records;
            forall|i: int| 0 <= i < records.len() ==> is_unbroken((#[trigger] records[i]).written())
        }),
    decreases lines.len(),
{
    if lines.len() > 0 {
        let (line, rest) = (lines[0], lines.skip(1));
        let next = s.read(line, rest);
        assert forall|i: int| 0 <= i < rest.len() implies is_unbroken(#[trigger] rest[i]) by {
            assert(rest[i] == lines[i + 1]);
        }
        assert(is_unbroken(lines[0]));
        if begins(line, "+++ "@) {
            reveal_strlit("+++ ");
            lemma_trimmed_unbroken(line.skip(4));
        }
        assert forall|i: int| 0 <= i < next.records.len() implies is_unbroken(
            (#[trigger] next.records[i]).written(),
        ) by {
            if i < s.records.len() {
                assert(next.records[i] == s.records[i]);
            } else {
                lemma_record_unbroken(next.records[i]);
            }
        }
        lemma_records_unbroken(next, rest);
        assert(s.read_all(lines) == next.read_all(rest));
    }
}

proof fn lemma_record_unbroken(r: Record)
    requires
        is_unbroken(r.path),
        is_unbroken(r.text),
        r.sign != '\n',
    ensures
        is_unbroken(r.written()),
{
    lemma_decimal_digits(r.line);
    reveal_strlit(":");
    reveal_strlit(":1:");
    let d = decimal(r.line);
    let p = r.path.len() as int;
    let q = p + 1 + d.len();
    assert forall|k: int| 0 <= k < r.written().len() implies #[trigger] r.written()[k] != '\n' by {
        if k < p {
            assert(r.written()[k] == r.path[k]);
        } else if p < k < q {
            assert(r.written()[k] == d[k - p - 1]);
        } else if k > q + 3 {
            assert(r.written()[k] == r.text[k - q - 4]);
        }
    }
}

/// The index has one line for each record, as long as no changed line of the diff
/// ends in a return.
pub proof fn index_has_one_line_per_change(raw: Seq<char>)
    requires
        forall|i: int|
            0 <= i < indexed(lines_of(raw)).records.len() ==> (
            #[trigger] indexed(lines_of(raw)).records[i]).written().last() != '\r',
    ensures
        lines_of(written(indexed(lines_of(raw)).records)) == indexed(lines_of(raw)).records.map_values(
            |r: Record| r.written(),
        ),
{
    let records = indexed(lines_of(raw)).records;
    lemma_lines_unbroken(raw);
    lemma_records_unbroken(IndexModel::start(), lines_of(raw));
    assert forall|i: int| 0 <= i < records.len() implies is_one_line(#[trigger] records[i]) by {
        let w = records[i].written();
        assert(is_unbroken(w));
        if w.contains('\n') {
            let k = choose|k: int| 0 <= k < w.len() && w[k] == '\n';
            assert(w[k] != '\n');
        }
    }
    lemma_index_lines(records);
}

/// How many of the lines to come are changed ones of a file that is known.
pub open spec fn changes_in(s: IndexModel, lines: Seq<Seq<char>>) -> nat
    decreases lines.len(),
{
    if lines.len() == 0 {
        0
    } else {
        let change = if s.is_change(lines[0]) && s.path.len() > 0 { 1nat } else { 0nat };
        change + changes_in(s.read(lines[0], lines.skip(1)), lines.skip(1))
    }
}

proof fn lemma_changes_recorded(s: IndexModel, lines: Seq<Seq<char>>)
    ensures
        s.read_all(lines).records.len() == s.records.len() + changes_in(s, lines),
    decreases lines.len(),
{
    if lines.len() > 0 {
        lemma_changes_recorded(s.read(lines[0], lines.skip(1)), lines.skip(1));
    }
}

/// Context lines, headers and lines outside of files are not recorded; every added
/// or removed line is, once.
pub proof fn changes_are_recorded_once(lines: Seq<Seq<char>>)
    ensures
        indexed(lines).records.len() == changes_in(IndexModel::start(), lines),
{
    lemma_changes_recorded(IndexModel::start(), lines);
}

/// How many of the lines of a hunk are lines of the old file.
pub open spec fn old_lines_in(body: Seq<Seq<char>>) -> nat
    decreases body.len(),
{
    if body.len() == 0 {
        0
    } else {
        (if body[0][0] == '-' || body[0][0] == ' ' { 1nat } else { 0nat }) + old_lines_in(body.skip(1))
    }
}

/// How many of the lines of a hunk are lines of the new file.
pub open spec fn new_lines_in(body: Seq<Seq<char>>) -> nat
    decreases body.len(),
{
    if body.len() == 0 {
        0
    } else {
        (if body[0][0] == '+' || body[0][0] == ' ' { 1nat } else { 0nat }) + new_lines_in(body.skip(1))
    }
}

/// The records of the changed lines of a hunk, the first of which is at line `line`
/// of the new file: each with the line that comes next in the new file, so that a
/// removed line points at where it was.
pub open spec fn hunk_records(path: Seq<char>, line: nat, body: Seq<Seq<char>>) -> Seq<Record>
    decreases body.len(),
{
    if body.len() == 0 {
        Seq::empty()
    } else {
        let sign = body[0][0];
        let rest = hunk_records(path, if sign == '+' || sign == ' ' { line + 1 } else { line }, body.skip(1));
        if sign == '+' || sign == '-' {
            seq![Record { path, line, sign, text: body[0].skip(1) }] + rest
        } else {
            rest
        }
    }
}

/// Whether a hunk has just as many lines of each file as its header announces.
pub open spec fn has_announced(header: Seq<char>, body: Seq<Seq<char>>) -> bool {
    &&& old_lines_in(body) == announced(header.skip(2), '-')
    &&& new_lines_in(body) == announced(header.skip(2), '+')
}

/// A part of a diff: a line that names the new file, a hunk, or any other line.
pub enum DiffPart {
    Name(Seq<char>),
    Hunk(Seq<char>, Seq<Seq<char>>),
    Other(Seq<char>),
}

impl DiffPart {
    /// The lines of the part.
    pub open spec fn lines(self) -> Seq<Seq<char>> {
        match self {
            DiffPart::Name(line) => seq![line],
            DiffPart::Hunk(header, body) => seq![header] + body,
            DiffPart::Other(line) => seq![line],
        }
    }

    /// Whether the part is as a unified diff has it, with the given lines to follow:
    /// a name starts with `+++ `, and any other line, such as `diff` or `---` with a
    /// name, is no changed line. A hunk has a header and the lines that the header
    /// announces. It may also have other lines than announced, as long as none of
    /// them looks like a header and what follows does not make up for any.
    pub open spec fn wf(self, following: Seq<Seq<char>>) -> bool {
        match self {
            DiffPart::Name(line) => "+++ "@.is_prefix_of(line),
            DiffPart::Hunk(header, body) => {
                &&& "@@"@.is_prefix_of(header)
                &&& forall|i: int|
                    0 <= i < body.len() ==> (#[trigger] body[i]).len() > 0 && (body[i][0] == '+' || body[i][0] == '-'
                        || body[i][0] == ' ' || body[i][0] == '\\')
                &&& {
                    ||| has_announced(header, body)
                    ||| {
                        &&& forall|i: int|
                            0 <= i < body.len() ==> !"+++ "@.is_prefix_of(#[trigger] body[i]) && !"--- "@.is_prefix_of(
                                body[i],
                            )
                        &&& sure_lines(header, body + following) <= body.len()
                    }
                }
            },
            DiffPart::Other(line) => "--- "@.is_prefix_of(line) || (!"@@"@.is_prefix_of(line) && (line.len() == 0 || (
            line[0] != '+' && line[0] != '-'))),
        }
    }
}

/// The lines of a diff, part after part.
pub open spec fn lines_in(parts: Seq<DiffPart>) -> Seq<Seq<char>>
    decreases parts.len(),
{
    if parts.len() == 0 {
        Seq::empty()
    } else {
        parts[0].lines() + lines_in(parts.skip(1))
    }
}

/// Whether each part is as a unified diff has it.
pub open spec fn is_diff(parts: Seq<DiffPart>) -> bool {
    forall|i: int| 0 <= i < parts.len() ==> (#[trigger] parts[i]).wf(lines_in(parts.skip(i + 1)))
}

/// The records of the hunks of a diff, in order, each under the path that was named
/// last. A deleted file has no path in the new tree, and its lines no records.
pub open spec fn records_in(path: Seq<char>, parts: Seq<DiffPart>) -> Seq<Record>
    decreases parts.len(),
{
    if parts.len() == 0 {
        Seq::empty()
    } else {
        match parts[0] {
            DiffPart::Name(line) => records_in(normalized(line.skip(4)), parts.skip(1)),
            DiffPart::Hunk(header, body) => {
                let of_hunk = if path.len() == 0 {
                    Seq::empty()
                } else {
                    hunk_records(path, new_start(header.skip(2)), body)
                };
                of_hunk + records_in(path, parts.skip(1))
            },
            DiffPart::Other(_) => records_in(path, parts.skip(1)),
        }
    }
}

/// A note in a hunk does not look like a header.
proof fn lemma_note_no_header(line: Seq<char>)
    requires
        line.len() > 0,
        line[0] == '\\',
    ensures
        !like_header(line),
{
    reveal_strlit("+++ ");
    reveal_strlit("--- ");
    reveal_strlit("diff ");
    reveal_strlit("@@");
    lemma_begins_first(line, "+++ "@);
    lemma_begins_first(line, "--- "@);
    lemma_begins_first(line, "diff "@);
    lemma_begins_first(line, "@@"@);
}

/// A line of a hunk that does not name a file is no header.
proof fn lemma_body_no_header(line: Seq<char>)
    requires
        line.len() > 0,
        line[0] == '+' || line[0] == '-' || line[0] == ' ' || line[0] == '\\',
        !"+++ "@.is_prefix_of(line),
        !"--- "@.is_prefix_of(line),
    ensures
        !like_header(line),
{
    reveal_strlit("diff ");
    reveal_strlit("@@");
    lemma_prefix(line, "+++ "@);
    lemma_prefix(line, "--- "@);
    lemma_begins_first(line, "diff "@);
    lemma_begins_first(line, "@@"@);
}

/// The lines that a header announces are found where they follow it.
proof fn lemma_span(body: Seq<Seq<char>>, rest: Seq<Seq<char>>)
    requires
        forall|i: int| 0 <= i < body.len() ==> is_body_line(#[trigger] body[i]),
    ensures
        ({
            let span = hunk_span(body + rest, old_lines_in(body), new_lines_in(body));
            &&& span is Some
            &&& span->0 <= body.len()
            &&& forall|i: int| span->0 <= i < body.len() ==> !like_header(#[trigger] body[i])
        }),
    decreases body.len(),
{
    let (o, n) = (old_lines_in(body), new_lines_in(body));
    if body.len() > 0 {
        let tail = body.skip(1);
        assert forall|i: int| 0 <= i < tail.len() implies is_body_line(#[trigger] tail[i]) by {
            assert(tail[i] == body[i + 1]);
        }
        lemma_span(tail, rest);
        assert(is_body_line(body[0]));
        assert((body + rest)[0] == body[0]);
        assert((body + rest).skip(1) =~= tail + rest);
        let span = hunk_span(body + rest, o, n);
        assert forall|i: int| span->0 <= i < body.len() implies !like_header(#[trigger] body[i]) by {
            if i > 0 {
                assert(body[i] == tail[i - 1]);
            } else {
                lemma_note_no_header(body[0]);
            }
        }
    }
}

/// The lines of a hunk are read as such, whatever they say.
proof fn lemma_body_read(s: IndexModel, body: Seq<Seq<char>>, rest: Seq<Seq<char>>)
    requires
        forall|i: int| 0 <= i < body.len() ==> is_body_line(#[trigger] body[i]),
        s.body <= body.len(),
        forall|i: int| s.body <= i < body.len() ==> !like_header(#[trigger] body[i]),
    ensures
        ({
            let of_hunk = if s.path.len() == 0 {
                Seq::empty()
            } else {
                hunk_records(s.path, s.line, body)
            };
            s.read_all(body + rest) == (IndexModel {
                records: s.records + of_hunk,
                line: s.line + new_lines_in(body),
                body: 0,
                ..s
            }).read_all(rest)
        }),
    decreases body.len(),
{
    let of_hunk = if s.path.len() == 0 {
        Seq::empty()
    } else {
        hunk_records(s.path, s.line, body)
    };
    if body.len() == 0 {
        assert(body + rest =~= rest);
        assert(s.records + of_hunk =~= s.records);
    } else {
        let (line, tail) = (body[0], body.skip(1));
        assert forall|i: int| 0 <= i < tail.len() implies is_body_line(#[trigger] tail[i]) by {
            assert(tail[i] == body[i + 1]);
        }
        assert(is_body_line(body[0]));
        assert((body + rest)[0] == line);
        assert((body + rest).skip(1) =~= tail + rest);
        if s.body == 0 {
            assert(!like_header(body[0]));
        }
        let next = s.read(line, tail + rest);
        assert forall|i: int| next.body <= i < tail.len() implies !like_header(#[trigger] tail[i]) by {
            assert(tail[i] == body[i + 1]);
        }
        lemma_body_read(next, tail, rest);
        let of_rest = if s.path.len() == 0 {
            Seq::empty()
        } else {
            hunk_records(s.path, next.line, tail)
        };
        assert(next.records + of_rest =~= s.records + of_hunk);
    }
}

proof fn lemma_parts_recorded(s: IndexModel, parts: Seq<DiffPart>)
    requires
        s.body == 0,
        is_diff(parts),
    ensures
        s.read_all(lines_in(parts)).records == s.records + records_in(s.path, parts),
    decreases parts.len(),
{
    let all = lines_in(parts);
    if parts.len() == 0 {
        assert(s.records + records_in(s.path, parts) =~= s.records);
    } else {
        let (part, rest) = (parts[0], parts.skip(1));
        assert(is_diff(rest)) by {
            assert forall|i: int| 0 <= i < rest.len() implies (#[trigger] rest[i]).wf(
                lines_in(rest.skip(i + 1)),
            ) by {
                assert(rest[i] == parts[i + 1]);
                assert(rest.skip(i + 1) =~= parts.skip(i + 2));
            }
        }
        assert(parts[0].wf(lines_in(rest)));
        reveal_strlit("+++ ");
        reveal_strlit("--- ");
        reveal_strlit("diff ");
        reveal_strlit("@@");
        let line = all[0];
        lemma_prefix(line, "+++ "@);
        lemma_prefix(line, "--- "@);
        lemma_prefix(line, "@@"@);
        lemma_begins_first(line, "+++ "@);
        lemma_begins_first(line, "--- "@);
        lemma_begins_first(line, "diff "@);
        lemma_begins_first(line, "@@"@);
        match part {
            DiffPart::Hunk(header, body) => {
                assert(all.skip(1) =~= body + lines_in(rest));
                let next = s.read(header, body + lines_in(rest));
                assert forall|i: int| 0 <= i < body.len() implies is_body_line(#[trigger] body[i]) by {}
                if has_announced(header, body) {
                    lemma_span(body, lines_in(rest));
                } else {
                    assert forall|i: int| 0 <= i < body.len() implies !like_header(#[trigger] body[i]) by {
                        lemma_body_no_header(body[i]);
                    }
                }
                lemma_body_read(next, body, lines_in(rest));
                let of_hunk = if s.path.len() == 0 {
                    Seq::empty()
                } else {
                    hunk_records(s.path, next.line, body)
                };
                let after = IndexModel {
                    records: next.records + of_hunk,
                    line: next.line + new_lines_in(body),
                    body: 0,
                    ..next
                };
                lemma_parts_recorded(after, rest);
                assert(after.records + records_in(s.path, rest) =~= s.records + records_in(s.path, parts));
            },
            _ => {
                assert(all.skip(1) =~= lines_in(rest));
                lemma_parts_recorded(s.read(line, lines_in(rest)), rest);
            },
        }
    }
}

/// The records of a unified diff are those of its hunks, in order: each changed
/// line, whatever it says, under the path that was named last.
pub proof fn diff_is_recorded(parts: Seq<DiffPart>)
    requires
        is_diff(parts),
    ensures
        indexed(lines_in(parts)).records == records_in(Seq::empty(), parts),
{
    lemma_parts_recorded(IndexModel::start(), parts);
    assert(indexed(lines_in(parts)).records =~= records_in(Seq::empty(), parts));
}

/// Whether no hunk of `a` is short of lines that `b`, coming next, would make up
/// for.
pub open spec fn keeps_its_hunks(a: Seq<Seq<char>>, b: Seq<Seq<char>>) -> bool {
    forall|k: int|
        0 <= k < a.len() && begins(#[trigger] a[k], "@@"@) ==> sure_lines(a[k], a.skip(k + 1) + b) == sure_lines(
            a[k],
            a.skip(k + 1),
        )
}

/// Whether a line that names a file and then one that opens a hunk come before the
/// first changed line, if there is any. `named` says that the file is named already.
pub open spec fn opens_a_file(s: IndexModel, lines: Seq<Seq<char>>, named: bool) -> bool
    decreases lines.len(),
{
    if lines.len() == 0 {
        true
    } else if s.is_change(lines[0]) {
        false
    } else if named && s.is_header(lines[0]) && begins(lines[0], "@@"@) {
        true
    } else {
        opens_a_file(s.read(lines[0], lines.skip(1)), lines.skip(1), named || begins(lines[0], "+++ "@))
    }
}

impl IndexModel {
    /// The same with nothing recorded.
    spec fn bare(self) -> IndexModel {
        IndexModel { records: Seq::empty(), ..self }
    }
}

/// What has been recorded stays, and has no bearing on what is recorded next.
proof fn lemma_records_stay(s: IndexModel, lines: Seq<Seq<char>>)
    ensures
        s.read_all(lines).records == s.records + s.bare().read_all(lines).records,
    decreases lines.len(),
{
    if lines.len() == 0 {
        assert(s.records + s.bare().records =~= s.records);
    } else {
        let (line, rest) = (lines[0], lines.skip(1));
        let (next, fresh) = (s.read(line, rest), s.bare().read(line, rest));
        lemma_records_stay(next, rest);
        lemma_records_stay(fresh, rest);
        assert(next.bare() == fresh.bare());
        let tail = next.bare().read_all(rest).records;
        assert(next.records =~= s.records + fresh.records);
        assert(next.records + tail =~= s.records + (fresh.records + tail));
        assert(s.read_all(lines) == next.read_all(rest));
        assert(s.bare().read_all(lines) == fresh.read_all(rest));
    }
}

/// What comes after a diff that opens a file is recorded as if nothing came before.
proof fn lemma_opened_anew(s: IndexModel, t: IndexModel, lines: Seq<Seq<char>>, named: bool)
    requires
        opens_a_file(s, lines, named),
        s.body == t.body,
        named ==> s.path == t.path,
    ensures
        t.read_all(lines).records == t.records + s.bare().read_all(lines).records,
    decreases lines.len(),
{
    if lines.len() == 0 {
        assert(t.records + s.bare().records =~= t.records);
    } else {
        let (line, rest) = (lines[0], lines.skip(1));
        let (next, other, fresh) = (s.read(line, rest), t.read(line, rest), s.bare().read(line, rest));
        reveal_strlit("+++ ");
        reveal_strlit("--- ");
        reveal_strlit("diff ");
        reveal_strlit("@@");
        lemma_begins_first(line, "+++ "@);
        lemma_begins_first(line, "--- "@);
        lemma_begins_first(line, "diff "@);
        lemma_begins_first(line, "@@"@);
        assert(t.read_all(lines) == other.read_all(rest));
        assert(s.bare().read_all(lines) == fresh.read_all(rest));
        if named && s.is_header(line) && begins(line, "@@"@) {
            assert(other.bare() == fresh);
            lemma_records_stay(other, rest);
        } else {
            lemma_opened_anew(next, other, rest, named || begins(line, "+++ "@));
            assert(next.bare() == fresh);
        }
    }
}

proof fn lemma_span_fits(following: Seq<Seq<char>>, old_lines: nat, new_lines: nat)
    ensures
        hunk_span(following, old_lines, new_lines) matches Some(n) ==> n <= following.len(),
    decreases following.len(),
{
    if following.len() > 0 {
        let line = following[0];
        let old_left = (old_lines - takes_old(line[0])) as nat;
        let new_left = (new_lines - takes_new(line[0])) as nat;
        lemma_span_fits(following.skip(1), old_left, new_left);
    }
}

/// The lines of `a` are read as if nothing came after them, and no hunk is open
/// behind them.
proof fn lemma_read_in_a_row(s: IndexModel, a: Seq<Seq<char>>, b: Seq<Seq<char>>)
    requires
        keeps_its_hunks(a, b),
        s.body <= a.len(),
    ensures
        s.read_all(a + b) == s.read_all(a).read_all(b),
        s.read_all(a).body == 0,
    decreases a.len(),
{
    if a.len() == 0 {
        assert(a + b =~= b);
    } else {
        let (line, rest) = (a[0], a.skip(1));
        assert((a + b)[0] == line);
        assert((a + b).skip(1) =~= rest + b);
        assert(keeps_its_hunks(rest, b)) by {
            assert forall|k: int| 0 <= k < rest.len() && begins(#[trigger] rest[k], "@@"@) implies sure_lines(
                rest[k],
                rest.skip(k + 1) + b,
            ) == sure_lines(rest[k], rest.skip(k + 1)) by {
                assert(rest[k] == a[k + 1]);
                assert(rest.skip(k + 1) =~= a.skip(k + 2));
            }
        }
        assert(begins(a[0], "@@"@) ==> sure_lines(line, rest + b) == sure_lines(line, rest));
        let next = s.read(line, rest);
        assert(s.read(line, rest + b) == next);
        lemma_span_fits(rest, announced(line.skip(2), '-'), announced(line.skip(2), '+'));
        lemma_read_in_a_row(next, rest, b);
    }
}

proof fn lemma_written_in_a_row(a: Seq<Record>, b: Seq<Record>)
    ensures
        written(a + b) == written(a) + written(b),
    decreases b.len(),
{
    if b.len() == 0 {
        assert(a + b =~= a);
        assert(written(a) + written(b) =~= written(a));
    } else {
        lemma_written_in_a_row(a, b.drop_last());
        assert((a + b).drop_last() =~= a + b.drop_last());
        assert((a + b).last() == b.last());
        assert(written(a + b) =~= written(a) + written(b));
    }
}

/// The index of two diffs in a row is that of the first and then that of the second:
/// as long as the first ends with a whole line and is not short of lines that the
/// second would make up for, and the second names a file and opens a hunk before its
/// first changed line.
pub proof fn diffs_in_a_row(a: Seq<char>, b: Seq<char>)
    requires
        a.len() == 0 || a.last() == '\n',
        keeps_its_hunks(lines_of(a), lines_of(b)),
        opens_a_file(IndexModel::start(), lines_of(b), false),
    ensures
        indexed(lines_of(a + b)).records == indexed(lines_of(a)).records + indexed(lines_of(b)).records,
        written(indexed(lines_of(a + b)).records) == written(indexed(lines_of(a)).records) + written(
            indexed(lines_of(b)).records,
        ),
{
    let start = IndexModel::start();
    lemma_lines_in_a_row(a, b);
    lemma_read_in_a_row(start, lines_of(a), lines_of(b));
    assert(start.bare() == start);
    lemma_opened_anew(start, indexed(lines_of(a)), lines_of(b), false);
    lemma_written_in_a_row(indexed(lines_of(a)).records, indexed(lines_of(b)).records);
}

// ---- What statuses, headers and lists promise --------------------------------

/// The marker tells what became of a file: it is untracked, added, deleted in the index
/// or in the work tree, renamed, or modified in one of them.
pub proof fn markers_tell_the_change(x: char, y: char)
    ensures
        ({
            let c = marker_of(Some(x), Some(y));
            &&& c == '?' <==> x == '?'
            &&& c == 'A' <==> x == 'A'
            &&& c == 'D' <==> x != '?' && x != 'A' && (x == 'D' || y == 'D')
            &&& c == 'R' <==> x == 'R' && y != 'D'
            &&& c == 'M' <==> (x == 'M' && y != 'D') || (x == ' ' && y == 'M')
            &&& c == '?' || c == 'A' || c == 'D' || c == 'R' || c == 'M' || c == '~'
        }),
{
}

/// Files are in the order of the first character in which they differ, and a path comes
/// before those that go on from it.
pub proof fn order_is_by_the_first_difference(p: Seq<char>, a: char, b: char, s: Seq<char>, t: Seq<char>)
    ensures
        a < b ==> sorts_before(p + seq![a] + s, p + seq![b] + t),
        b < a ==> !sorts_before(p + seq![a] + s, p + seq![b] + t),
        sorts_before(p, p + seq![a] + s),
        !sorts_before(p + seq![a] + s, p),
        !sorts_before(p, p),
    decreases p.len(),
{
    let (x, y) = (p + seq![a] + s, p + seq![b] + t);
    if p.len() > 0 {
        let q = p.skip(1);
        order_is_by_the_first_difference(q, a, b, s, t);
        assert(x.skip(1) =~= q + seq![a] + s);
        assert(y.skip(1) =~= q + seq![b] + t);
        assert(x[0] == p[0] && y[0] == p[0]);
    } else {
        assert(x[0] == a && y[0] == b);
    }
}

/// The list of all files is read back from names that are parted by a null: each name
/// is there, and nothing else.
pub proof fn names_are_parted(name: Seq<char>, rest: Seq<char>, t: Seq<char>)
    requires
        forall|i: int| 0 <= i < name.len() ==> #[trigger] name[i] != '\0',
    ensures
        pieces(name + seq!['\0'] + rest, '\0').contains(t) <==> t == name || pieces(rest, '\0').contains(t),
{
    pieces_split(name, '\0', rest);
    let (one, tail) = (seq![name], pieces(rest, '\0'));
    assert(one[0] == name);
    lemma_joined_contains(one, tail);
    assert(one.contains(t) <==> t == name);
}

/// A path of a diff loses the prefix of its side, and the white space around it;
/// `/dev/null` is no path.
pub proof fn diff_paths_are_read(side: char, path: Seq<char>)
    requires
        trimmed(path) == path,
    ensures
        (side == 'a' || side == 'b' || side == 'c' || side == 'i' || side == 'w' || side == 'o') && trimmed(
            seq![side, '/'] + path,
        ) == seq![side, '/'] + path ==> normalized(seq![side, '/'] + path) == path,
        normalized("/dev/null"@).len() == 0 || trimmed("/dev/null"@) != "/dev/null"@,
        path.len() >= 2 && path[1] != '/' && path != "/dev/null"@ ==> normalized(path) == path,
{
    let t = seq![side, '/'] + path;
    reveal_strlit("/dev/null");
    assert(t.skip(2) =~= path);
    assert(t[0] == side && t[1] == '/');
    assert("/dev/null"@[0] == '/');
}

proof fn lemma_number_cut(n: usize, c: char, rest: Seq<char>)
    requires
        !is_digit(c),
    ensures
        run_before(decimal(n as nat) + seq![c] + rest, c) == decimal(n as nat).len(),
        forall|i: int| 0 <= i < decimal(n as nat).len() ==> is_digit(#[trigger] decimal(n as nat)[i]),
        number_of(decimal(n as nat)) == Some(n),
        trimmed(decimal(n as nat)) == decimal(n as nat) || white_space(decimal(n as nat)[0]) || white_space(
            decimal(n as nat).last(),
        ),
{
    let d = decimal(n as nat);
    lemma_decimal_digits(n as nat);
    decimal_roundtrip(n);
    assert forall|i: int| 0 <= i < d.len() implies #[trigger] d[i] != c by {
        assert(is_digit(d[i]));
    }
    run_ends_at_the_first(d, c, rest);
}

/// A range of a hunk header is read: where it starts, and how many lines it announces,
/// one if it does not say.
proof fn lemma_range(start: usize, count: usize, tail: Seq<char>)
    ensures
        ({
            let long = decimal(start as nat) + seq![','] + decimal(count as nat);
            let short = decimal(start as nat);
            &&& (long + seq![' '] + tail).take(run_before(long + seq![' '] + tail, ' ') as int) == long
            &&& (short + seq![' '] + tail).take(run_before(short + seq![' '] + tail, ' ') as int) == short
            &&& pieces(long, ',') == seq![decimal(start as nat), decimal(count as nat)]
            &&& pieces(short, ',') == seq![decimal(start as nat)]
        }),
{
    let (a, b) = (decimal(start as nat), decimal(count as nat));
    lemma_number_cut(start, ' ', tail);
    lemma_number_cut(count, ' ', tail);
    let long = a + seq![','] + b;
    assert forall|i: int| 0 <= i < long.len() implies #[trigger] long[i] != ' ' by {
        if i < a.len() {
            assert(is_digit(a[i]));
        } else if i > a.len() {
            assert(is_digit(b[i - a.len() - 1]));
        }
    }
    run_ends_at_the_first(long, ' ', tail);
    assert((long + seq![' '] + tail).take(long.len() as int) =~= long);
    assert forall|i: int| 0 <= i < a.len() implies #[trigger] a[i] != ' ' && a[i] != ',' by {
        assert(is_digit(a[i]));
    }
    assert forall|i: int| 0 <= i < b.len() implies #[trigger] b[i] != ',' by {
        assert(is_digit(b[i]));
    }
    run_ends_at_the_first(a, ' ', tail);
    assert((a + seq![' '] + tail).take(a.len() as int) =~= a);
    pieces_split(a, ',', b);
    pieces_split(b, ',', tail);
    assert(seq![a] + seq![b] =~= seq![a, b]);
}

/// The second piece of a text that has a mark, where none comes before: it starts with
/// what follows the mark, up to a space at least.
proof fn lemma_after_mark(a: Seq<char>, mark: char, word: Seq<char>, tail: Seq<char>)
    requires
        mark != ' ',
        forall|i: int| 0 <= i < a.len() ==> #[trigger] a[i] != mark,
        forall|i: int| 0 <= i < word.len() ==> #[trigger] word[i] != mark,
    ensures
        ({
            let p = pieces(a + seq![mark] + (word + seq![' '] + tail), mark);
            p.len() >= 2 && exists|rest: Seq<char>| p[1] == #[trigger] (word + seq![' '] + rest)
        }),
{
    let b = word + seq![' '] + tail;
    pieces_split(a, mark, b);
    let n = run_before(b, mark) as int;
    lemma_run_before(b, mark);
    assert forall|i: int| 0 <= i <= word.len() implies #[trigger] b[i] != mark by {
        if i < word.len() {
            assert(b[i] == word[i]);
        }
    }
    let first = b.take(n);
    assert(n > word.len());
    assert(pieces(b, mark)[0] == first) by {
        if n >= b.len() {
            assert(first =~= b);
        }
    }
    let rest = first.skip(word.len() as int + 1);
    assert(first =~= word + seq![' '] + rest);
}

/// A hunk header announces the numbers of lines that it gives, one where it gives none,
/// and starts at the line that it gives for the new file.
pub proof fn headers_announce(a: usize, b: usize, c: usize, d: usize, tail: Seq<char>)
    ensures
        ({
            let (old, new) = (decimal(a as nat) + seq![','] + decimal(b as nat), decimal(c as nat) + seq![',']
                + decimal(d as nat));
            let rest = seq![' '] + seq!['-'] + (old + seq![' '] + (seq!['+'] + (new + seq![' '] + tail)));
            &&& announced(rest, '-') == b
            &&& announced(rest, '+') == d
        }),
        ({
            let (old, new) = (decimal(a as nat), decimal(c as nat));
            let rest = seq![' '] + seq!['-'] + (old + seq![' '] + (seq!['+'] + (new + seq![' '] + tail)));
            &&& announced(rest, '-') == 1
            &&& announced(rest, '+') == 1
        }),
{
    let (old, new) = (decimal(a as nat) + seq![','] + decimal(b as nat), decimal(c as nat) + seq![','] + decimal(d as nat));
    lemma_announced(old, new, a, b, c, d, tail);
    lemma_announced(decimal(a as nat), decimal(c as nat), a, b, c, d, tail);
}

spec fn is_range(s: Seq<char>, start: usize, count: usize) -> bool {
    s == decimal(start as nat) || s == decimal(start as nat) + seq![','] + decimal(count as nat)
}

proof fn lemma_range_chars(s: Seq<char>, start: usize, count: usize)
    requires
        is_range(s, start, count),
    ensures
        s.len() > 0,
        forall|i: int| 0 <= i < s.len() ==> is_digit(#[trigger] s[i]) || s[i] == ',',
{
    let (a, b) = (decimal(start as nat), decimal(count as nat));
    lemma_decimal_digits(start as nat);
    lemma_decimal_digits(count as nat);
    assert forall|i: int| 0 <= i < s.len() implies is_digit(#[trigger] s[i]) || s[i] == ',' by {
        if i < a.len() {
            assert(is_digit(a[i]));
        } else if i > a.len() {
            assert(is_digit(b[i - a.len() - 1]));
        }
    }
}

proof fn lemma_announced(
    old: Seq<char>,
    new: Seq<char>,
    a: usize,
    b: usize,
    c: usize,
    d: usize,
    tail: Seq<char>,
)
    requires
        is_range(old, a, b),
        is_range(new, c, d),
    ensures
        ({
            let rest = seq![' '] + seq!['-'] + (old + seq![' '] + (seq!['+'] + (new + seq![' '] + tail)));
            &&& announced(rest, '-') == (if old == decimal(a as nat) + seq![','] + decimal(b as nat) { b } else { 1 })
            &&& announced(rest, '+') == (if new == decimal(c as nat) + seq![','] + decimal(d as nat) { d } else { 1 })
        }),
{
    let inner = seq!['+'] + (new + seq![' '] + tail);
    let rest = seq![' '] + seq!['-'] + (old + seq![' '] + inner);
    lemma_range_chars(old, a, b);
    lemma_range_chars(new, c, d);
    assert forall|i: int| 0 <= i < old.len() implies #[trigger] old[i] != '-' by {
        assert(is_digit(old[i]) || old[i] == ',');
    }
    assert forall|i: int| 0 <= i < new.len() implies #[trigger] new[i] != '+' by {
        assert(is_digit(new[i]) || new[i] == ',');
    }
    lemma_after_mark(seq![' '], '-', old, inner);
    let p = pieces(rest, '-');
    let u = choose|u: Seq<char>| p[1] == #[trigger] (old + seq![' '] + u);
    lemma_range(a, b, u);
    lemma_number_cut(a, ' ', u);
    lemma_number_cut(b, ' ', u);
    let before = seq![' '] + seq!['-'] + old + seq![' '];
    assert(rest =~= before + seq!['+'] + (new + seq![' '] + tail));
    assert forall|i: int| 0 <= i < before.len() implies #[trigger] before[i] != '+' by {
        if 2 <= i < 2 + old.len() {
            assert(is_digit(old[i - 2]) || old[i - 2] == ',');
        }
    }
    lemma_after_mark(before, '+', new, tail);
    let q = pieces(rest, '+');
    let v = choose|v: Seq<char>| q[1] == #[trigger] (new + seq![' '] + v);
    lemma_range(c, d, v);
    lemma_number_cut(c, ' ', v);
    lemma_number_cut(d, ' ', v);
}

/// A hunk starts at the line of the new file that its header gives behind the `+`.
pub proof fn headers_give_the_new_line(before: Seq<char>, c: usize, d: usize, tail: Seq<char>)
    requires
        forall|i: int| 0 <= i < before.len() ==> #[trigger] before[i] != '+',
        forall|x: char| is_digit(x) ==> !#[trigger] white_space(x),
    ensures
        new_start(before + seq!['+'] + (decimal(c as nat) + seq![','] + decimal(d as nat) + seq![' '] + tail)) == c,
        new_start(before + seq!['+'] + (decimal(c as nat) + seq![' '] + tail)) == c,
{
    lemma_new_start(before, decimal(c as nat) + seq![','] + decimal(d as nat), c, d, tail);
    lemma_new_start(before, decimal(c as nat), c, d, tail);
}

proof fn lemma_new_start(before: Seq<char>, new: Seq<char>, c: usize, d: usize, tail: Seq<char>)
    requires
        forall|i: int| 0 <= i < before.len() ==> #[trigger] before[i] != '+',
        forall|x: char| is_digit(x) ==> !#[trigger] white_space(x),
        is_range(new, c, d),
    ensures
        new_start(before + seq!['+'] + (new + seq![' '] + tail)) == c,
{
    lemma_range_chars(new, c, d);
    assert forall|i: int| 0 <= i < new.len() implies #[trigger] new[i] != '+' by {
        assert(is_digit(new[i]) || new[i] == ',');
    }
    lemma_after_mark(before, '+', new, tail);
    let p = pieces(before + seq!['+'] + (new + seq![' '] + tail), '+');
    let v = choose|v: Seq<char>| p[1] == #[trigger] (new + seq![' '] + v);
    let n = decimal(c as nat);
    lemma_number_cut(c, ',', v);
    assert(is_digit(n[0]) && is_digit(n[n.len() - 1]));
    blanks_are_trimmed(Seq::empty(), n, Seq::empty());
    assert(Seq::<char>::empty() + n + Seq::<char>::empty() =~= n);
    let s = p[1];
    let t = s.take(run_before(s, ',') as int);
    lemma_run_before(s, ',');
    if new == n {
        // Whatever the comma stands in, the space comes first.
        assert forall|i: int| 0 <= i < n.len() implies #[trigger] s[i] != ',' by {
            assert(s[i] == n[i]);
            assert(is_digit(n[i]));
        }
        assert(s[n.len() as int] == ' ');
        assert(run_before(s, ',') > n.len()) by {
            let k = run_before(s, ',') as int;
            if k <= n.len() {
                if k < n.len() {
                    assert(s[k] != ',');
                }
            }
        }
        let u = t.skip(n.len() as int + 1);
        assert(t =~= n + seq![' '] + u);
        lemma_number_cut(c, ' ', u);
        assert(t.take(n.len() as int) =~= n);
    } else {
        let m = decimal(d as nat);
        let u = m + seq![' '] + v;
        assert(s =~= n + seq![','] + u);
        lemma_number_cut(c, ',', u);
        assert(t =~= n);
        assert forall|i: int| 0 <= i < n.len() implies #[trigger] n[i] != ' ' by {
            assert(is_digit(n[i]));
        }
        run_ends_at_the_first(n, ' ', Seq::empty());
        assert(n.take(n.len() as int) =~= n);
    }
}

/// A record is written as its path, its line, the first column, and the line with its
/// sign, with colons between.
pub proof fn records_are_written(r: Record)
    ensures
        r.written() == r.path + seq![':'] + decimal(r.line) + seq![':', '1', ':', r.sign] + r.text,
{
    reveal_strlit(":");
    reveal_strlit(":1:");
    assert(r.written() =~= r.path + seq![':'] + decimal(r.line) + seq![':', '1', ':', r.sign] + r.text);
}

/// The diffs of a project follow each other, that of the tracked files first.
pub proof fn diffs_follow_each_other(a: Seq<Seq<char>>, t: Seq<char>)
    ensures
        concatenated(a.push(t)) == concatenated(a) + t,
        concatenated(Seq::empty()).len() == 0,
{
    assert(a.push(t).drop_last() =~= a);
}

/// A command succeeds just if it ran and ended with code 0.
pub proof fn success_is_code_zero(output: CommandOutput)
    ensures
        succeeded(Some(output)) <==> output.code == Some(0i32),
        !succeeded(None),
{
}

}

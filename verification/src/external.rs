//! The interactive programs that take over the terminal (yazi, fzf, ripgrep,
//! lazygit, the editor): with which arguments they are run, and what is read
//! from what they print.

use crate::git::Record;
use crate::notebook::{join_path, under};
use crate::number::{
    decimal, decimal_roundtrip, decimal_string, is_digit, lemma_decimal_digits, number_of, parse_number,
};
use crate::text::{
    begins, chars_of, lemma_run_before_is, lines, lines_of, lossy, lossy_text, pieces, pieces_split,
    push_text, replace, replaced, slices, split, starts_with, string_of, texts, trim, trimmed, words,
    words_of,
};
use vstd::prelude::*;

verus! {

// ---- Paths -------------------------------------------------------------------

/// The first line of `text` that is not blank, without the white space around
/// it.
pub open spec fn first_line(lines: Seq<Seq<char>>) -> Option<Seq<char>>
    decreases lines.len(),
{
    if lines.len() == 0 {
        None
    } else if trimmed(lines[0]).len() > 0 {
        Some(trimmed(lines[0]))
    } else {
        first_line(lines.skip(1))
    }
}

/// First non-empty line of `text` as a path.
pub fn first_path(text: &str) -> (r: Option<String>)
    ensures
        r is Some <==> first_line(lines_of(text@)) is Some,
        r matches Some(p) ==> first_line(lines_of(text@)) == Some(p@),
{
    let chars = chars_of(text);
    let all = lines(chars.as_slice());
    let mut i: usize = 0;
    assert(lines_of(text@).skip(0) =~= lines_of(text@));
    while i < all.len()
        invariant
            i <= all@.len(),
            slices(all@) == lines_of(text@),
            first_line(lines_of(text@)) == first_line(lines_of(text@).skip(i as int)),
        decreases all@.len() - i,
    {
        proof {
            assert(slices(all@)[i as int] == all@[i as int]@);
            assert(lines_of(text@).skip(i as int).skip(1) =~= lines_of(text@).skip(i + 1));
        }
        let t = trim(all[i]);
        if t.len() > 0 {
            return Some(string_of(t));
        }
        i += 1;
    }
    None
}

/// Whether `path` is absolute and none of its components is empty or `.`.
pub open spec fn is_clean(path: Seq<char>) -> bool {
    &&& begins(path, "/"@)
    &&& forall|i: int|
        0 <= i < pieces(path.skip(1), '/').len() ==> (#[trigger] pieces(path.skip(1), '/')[i]).len() > 0
            && pieces(path.skip(1), '/')[i] != "."@
}

/// What is left of `path` below `base`, if it is there.
pub uninterp spec fn below(path: Seq<char>, base: Seq<char>) -> Option<Seq<char>>;

/// `Path::strip_prefix`: the path that gives `path` when it is joined onto
/// `base`; `None` if the components of `base` are not the first of `path`. Of
/// two clean paths this is what follows `base` and a separator.
#[verifier::external_body]
fn strip_base(path: &str, base: &str) -> (r: Option<String>)
    ensures
        match r {
            Some(p) => below(path@, base@) == Some(p@),
            None => below(path@, base@) is None,
        },
        is_clean(path@) && is_clean(base@) ==> {
            &&& r is Some <==> path@ == base@ || begins(path@, base@ + "/"@)
            &&& r matches Some(p) ==> p@ == (if path@ == base@ {
                Seq::empty()
            } else {
                path@.skip(base@.len() as int + 1)
            })
        },
{
    match std::path::Path::new(path).strip_prefix(base) {
        Ok(p) => Some(p.to_string_lossy().into_owned()),
        Err(_) => None,
    }
}

/// `path` relative to `root` if it is absolute and lives inside; else as it is.
pub open spec fn relative_to(root: Seq<char>, path: Seq<char>) -> Seq<char> {
    if begins(path, "/"@) {
        match below(path, root) {
            Some(p) => p,
            None => path,
        }
    } else {
        path
    }
}

/// Makes `path` relative to `root` when it lives inside the repository.
pub fn relativize(root: &str, path: &str) -> (r: String)
    ensures
        r@ == relative_to(root@, path@),
        is_clean(path@) && is_clean(root@) && begins(path@, root@ + "/"@) ==> r@ == path@.skip(
            root@.len() as int + 1,
        ),
{
    let chars = chars_of(path);
    if starts_with(chars.as_slice(), "/") {
        match strip_base(path, root) {
            Some(p) => {
                proof {
                    if begins(path@, root@ + "/"@) && path@ == root@ {
                        assert(path@.len() < (root@ + "/"@).len()) by {
                            reveal_strlit("/");
                        }
                    }
                }
                p
            },
            None => path.to_string(),
        }
    } else {
        path.to_string()
    }
}

/// Where `path` is, as seen from `root`: below it, unless it is absolute.
pub open spec fn in_root(root: Seq<char>, path: Seq<char>) -> Seq<char> {
    if begins(path, "/"@) { path } else { under(root, path) }
}

/// Where `path` is, as seen from `root`: below it, unless it is absolute.
pub fn locate(root: &str, path: &str) -> (r: String)
    ensures
        r@ == in_root(root@, path@),
{
    let chars = chars_of(path);
    if starts_with(chars.as_slice(), "/") {
        path.to_string()
    } else {
        join_path(root, path)
    }
}

/// The path picked in a chooser, relative to `root` when possible, from what the
/// chooser wrote.
pub fn picked_path(root: &str, selected: &str) -> (r: Option<String>)
    ensures
        match first_line(lines_of(selected@)) {
            Some(p) => r is Some && r.unwrap()@ == relative_to(root@, p),
            None => r is None,
        },
{
    match first_path(selected) {
        Some(p) => Some(relativize(root, p.as_str())),
        None => None,
    }
}

/// The path picked in a finder, from the bytes that the finder printed.
pub fn printed_path(root: &str, output: &[u8]) -> (r: Option<String>)
    ensures
        match first_line(lines_of(lossy_text(output@))) {
            Some(p) => r is Some && r.unwrap()@ == relative_to(root@, p),
            None => r is None,
        },
{
    picked_path(root, lossy(output).as_str())
}

// ---- Quoting -----------------------------------------------------------------

/// `s` between single quotes, with each single quote in it written so that it
/// ends the quoted part, stands by itself and starts another.
pub open spec fn quoted(s: Seq<char>) -> Seq<char> {
    seq!['\''] + replaced(s, '\'', seq!['\'', '\\', '\'', '\'']) + seq!['\'']
}

/// Minimal POSIX single-quote escaping for embedding a path in a shell command.
pub fn shell_quote(path: &str) -> (r: String)
    ensures
        r@ == quoted(path@),
{
    let chars = chars_of(path);
    proof {
        reveal_strlit("'\\''");
        assert("'\\''"@ =~= seq!['\'', '\\', '\'', '\'']);
    }
    let inner = replace(chars.as_slice(), '\'', "'\\''");
    let mut r = String::new();
    r.push('\'');
    push_text(&mut r, inner.as_str());
    r.push('\'');
    assert(r@ =~= quoted(path@));
    r
}

/// The text that a shell reads from `s` as one word: between single quotes
/// everything stands for itself; outside of them a backslash makes the next
/// character stand for itself, and nothing else is understood here.
pub open spec fn shell_word(s: Seq<char>, in_quotes: bool) -> Option<Seq<char>>
    decreases s.len(),
{
    if s.len() == 0 {
        if in_quotes { None } else { Some(Seq::empty()) }
    } else if s[0] == '\'' {
        shell_word(s.skip(1), !in_quotes)
    } else if in_quotes {
        match shell_word(s.skip(1), true) {
            Some(t) => Some(seq![s[0]] + t),
            None => None,
        }
    } else if s[0] == '\\' && s.len() > 1 {
        match shell_word(s.skip(2), false) {
            Some(t) => Some(seq![s[1]] + t),
            None => None,
        }
    } else {
        None
    }
}

proof fn lemma_replaced_add(a: Seq<char>, b: Seq<char>, c: char, by: Seq<char>)
    ensures
        replaced(a + b, c, by) == replaced(a, c, by) + replaced(b, c, by),
    decreases b.len(),
{
    if b.len() == 0 {
        assert(a + b =~= a);
        assert(replaced(a, c, by) + replaced(b, c, by) =~= replaced(a, c, by));
    } else {
        lemma_replaced_add(a, b.drop_last(), c, by);
        assert((a + b).drop_last() =~= a + b.drop_last());
        assert((a + b).last() == b.last());
        assert(replaced(a + b, c, by) =~= replaced(a, c, by) + replaced(b, c, by));
    }
}

proof fn lemma_quoted_read(s: Seq<char>)
    ensures
        shell_word(replaced(s, '\'', seq!['\'', '\\', '\'', '\'']) + seq!['\''], true) == Some(s),
    decreases s.len(),
{
    let by = seq!['\'', '\\', '\'', '\''];
    let all = replaced(s, '\'', by) + seq!['\''];
    if s.len() == 0 {
        assert(all =~= seq!['\'']);
        assert(all.skip(1) =~= Seq::<char>::empty());
        assert(shell_word(all.skip(1), false) == Some(Seq::<char>::empty()));
        assert(s =~= Seq::empty());
    } else {
        let (head, tail) = (seq![s[0]], s.skip(1));
        assert(s =~= head + tail);
        lemma_replaced_add(head, tail, '\'', by);
        lemma_quoted_read(tail);
        let rest = replaced(tail, '\'', by) + seq!['\''];
        assert(head.drop_last() =~= Seq::<char>::empty());
        assert(replaced(Seq::<char>::empty(), '\'', by) == Seq::<char>::empty());
        if s[0] == '\'' {
            assert(replaced(head, '\'', by) =~= by);
            assert(all =~= by + rest);
            assert(all.skip(1).skip(2).skip(1) =~= rest);
            assert(all.skip(1)[0] == '\\');
            assert(all.skip(1)[1] == '\'');
            assert(all.skip(1).skip(2)[0] == '\'');
            assert(shell_word(all.skip(1).skip(2), false) == Some(tail));
            assert(shell_word(all.skip(1), false) == Some(seq!['\''] + tail));
        } else {
            assert(replaced(head, '\'', by) =~= head);
            assert(all =~= head + rest);
            assert(all.skip(1) =~= rest);
        }
    }
}

/// A shell reads back from a quoted text the text itself, whatever it holds.
pub proof fn quoting_is_read_back(s: Seq<char>)
    ensures
        shell_word(quoted(s), false) == Some(s),
{
    lemma_quoted_read(s);
    assert(quoted(s).skip(1) =~= replaced(s, '\'', seq!['\'', '\\', '\'', '\'']) + seq!['\'']);
}

// ---- Searching ---------------------------------------------------------------

/// A search hit: a file and, optionally, a 1-based line number.
#[derive(Clone, Debug)]
pub struct Hit {
    pub path: String,
    pub line: Option<usize>,
}

/// What a hit points at.
#[verifier::ext_equal]
pub struct HitModel {
    pub path: Seq<char>,
    pub line: Option<usize>,
}

impl View for Hit {
    type V = HitModel;

    open spec fn view(&self) -> HitModel {
        HitModel { path: self.path@, line: self.line }
    }
}

/// What a line `path:line:col:text` points at.
pub open spec fn hit_on(line: Seq<char>) -> Option<HitModel> {
    let p = pieces(line, ':');
    if p[0].len() == 0 {
        None
    } else {
        Some(
            HitModel {
                path: p[0],
                line: if p.len() > 1 { number_of(p[1]) } else { None },
            },
        )
    }
}

/// The hit that was selected, by the first line that the finder printed.
pub open spec fn selected_hit(root: Seq<char>, printed: Seq<char>) -> Option<HitModel> {
    let all = lines_of(printed);
    if all.len() == 0 {
        None
    } else {
        match hit_on(all[0]) {
            Some(h) => Some(HitModel { path: relative_to(root, h.path), ..h }),
            None => None,
        }
    }
}

/// The hit on a printed line.
fn parse_hit(root: &str, line: &[char]) -> (r: Option<Hit>)
    ensures
        match hit_on(line@) {
            Some(h) => r is Some && r.unwrap()@ == (HitModel { path: relative_to(root@, h.path), ..h }),
            None => r is None,
        },
{
    let p = split(line, ':');
    assert(pieces(line@, ':').len() > 0);
    assert(slices(p@)[0] == p@[0]@);
    if p[0].len() == 0 {
        return None;
    }
    let number = if p.len() > 1 {
        assert(slices(p@)[1] == p@[1]@);
        parse_number(p[1])
    } else {
        None
    };
    Some(Hit { path: relativize(root, string_of(p[0]).as_str()), line: number })
}

/// The hit that was selected, if any, from what the finder printed.
pub fn search_hit(root: &str, output: &[u8]) -> (r: Option<Hit>)
    ensures
        match selected_hit(root@, lossy_text(output@)) {
            Some(h) => r is Some && r.unwrap()@ == h,
            None => r is None,
        },
{
    let chars = chars_of(lossy(output).as_str());
    let all = lines(chars.as_slice());
    if all.len() == 0 {
        None
    } else {
        assert(slices(all@)[0] == all@[0]@);
        parse_hit(root, all[0])
    }
}

/// A record of the index of changed lines points at the file and the line that
/// it was made for, unless the path holds a colon.
pub proof fn record_is_found(r: Record)
    requires
        r.path.len() > 0,
        forall|i: int| 0 <= i < r.path.len() ==> #[trigger] r.path[i] != ':',
        r.line <= usize::MAX,
    ensures
        hit_on(r.written()) == Some(HitModel { path: r.path, line: Some(r.line as usize) }),
{
    reveal_strlit(":");
    reveal_strlit(":1:");
    let line = r.written();
    let n = r.path.len() as int;
    let d = decimal(r.line);
    assert(line[n] == ':');
    lemma_run_before_is(line, ':', n);
    assert(line.take(n) =~= r.path);
    let rest = line.skip(n + 1);
    let m = d.len() as int;
    lemma_decimal_digits(r.line);
    assert forall|i: int| 0 <= i < m implies rest[i] != ':' by {
        assert(rest[i] == d[i]);
    }
    assert(rest[m] == ':');
    lemma_run_before_is(rest, ':', m);
    assert(rest.take(m) =~= d);
    assert(pieces(line, ':') == seq![r.path] + pieces(rest, ':'));
    assert(pieces(rest, ':')[0] == d);
    assert(pieces(line, ':')[1] == d);
    decimal_roundtrip(r.line as usize);
}

/// The command that searches the index file `index_path`; `{q}` stands for the
/// pattern. Each matching line is printed as it is.
pub open spec fn search_command(index_path: Seq<char>) -> Seq<char> {
    "rg --color=always --smart-case --no-line-number --no-filename -- {q} "@ + quoted(index_path)
        + " || true"@
}

/// The command that searches the index of a diff, kept in the file `index_path`.
pub fn search_diff(index_path: &str) -> (r: String)
    ensures
        r@ == search_command(index_path@),
{
    let mut r = "rg --color=always --smart-case --no-line-number --no-filename -- {q} ".to_string();
    push_text(&mut r, shell_quote(index_path).as_str());
    push_text(&mut r, " || true");
    r
}

/// The arguments of the finder that runs `command` anew for every pattern.
pub fn reload_search_args(command: &str) -> (r: Vec<String>)
    ensures
        texts(r@) == seq![
            "--ansi"@,
            "--disabled"@,
            "--delimiter=:"@,
            "--with-nth=1,2,4.."@,
            "--prompt=search> "@,
            "--header=Type a pattern · Enter jump · Esc cancel"@,
            "--bind=start:reload:"@ + command@,
            "--bind=change:reload:sleep 0.05; "@ + command@,
            "--preview=bat --color=always --style=numbers --highlight-line {2} {1}"@,
            "--preview-window=right,60%,border-left,+{2}/2"@,
        ],
{
    let mut start = "--bind=start:reload:".to_string();
    push_text(&mut start, command);
    let mut change = "--bind=change:reload:sleep 0.05; ".to_string();
    push_text(&mut change, command);
    let r = vec![
        "--ansi".to_string(),
        "--disabled".to_string(),
        "--delimiter=:".to_string(),
        "--with-nth=1,2,4..".to_string(),
        "--prompt=search> ".to_string(),
        "--header=Type a pattern · Enter jump · Esc cancel".to_string(),
        start,
        change,
        "--preview=bat --color=always --style=numbers --highlight-line {2} {1}".to_string(),
        "--preview-window=right,60%,border-left,+{2}/2".to_string(),
    ];
    assert(texts(r@) =~= seq![
        "--ansi"@,
        "--disabled"@,
        "--delimiter=:"@,
        "--with-nth=1,2,4.."@,
        "--prompt=search> "@,
        "--header=Type a pattern · Enter jump · Esc cancel"@,
        "--bind=start:reload:"@ + command@,
        "--bind=change:reload:sleep 0.05; "@ + command@,
        "--preview=bat --color=always --style=numbers --highlight-line {2} {1}"@,
        "--preview-window=right,60%,border-left,+{2}/2"@,
    ]);
    r
}

// ---- Picking files -----------------------------------------------------------

/// The arguments of ripgrep that list the files of the project.
pub fn list_files_args() -> (r: Vec<String>)
    ensures
        texts(r@) == seq!["--files"@, "--hidden"@, "--glob"@, "!.git"@],
{
    let r = vec![
        "--files".to_string(),
        "--hidden".to_string(),
        "--glob".to_string(),
        "!.git".to_string(),
    ];
    assert(texts(r@) =~= seq!["--files"@, "--hidden"@, "--glob"@, "!.git"@]);
    r
}

/// The arguments of the finder that picks a file from a list.
pub fn pick_file_args() -> (r: Vec<String>)
    ensures
        texts(r@) == seq![
            "--prompt=file> "@,
            "--header=Enter select · Esc cancel"@,
            "--preview=bat --color=always --style=numbers --line-range :300 {}"@,
            "--preview-window=right,60%,border-left"@,
        ],
{
    let r = vec![
        "--prompt=file> ".to_string(),
        "--header=Enter select · Esc cancel".to_string(),
        "--preview=bat --color=always --style=numbers --line-range :300 {}".to_string(),
        "--preview-window=right,60%,border-left".to_string(),
    ];
    assert(texts(r@) =~= seq![
        "--prompt=file> "@,
        "--header=Enter select · Esc cancel"@,
        "--preview=bat --color=always --style=numbers --line-range :300 {}"@,
        "--preview-window=right,60%,border-left"@,
    ]);
    r
}

/// The arguments of yazi as a chooser: rooted at `root`, to write what is chosen
/// to `chooser`.
pub fn yazi_args(root: &str, chooser: &str) -> (r: Vec<String>)
    ensures
        texts(r@) == seq![root@, "--chooser-file="@ + chooser@],
{
    let mut file = "--chooser-file=".to_string();
    push_text(&mut file, chooser);
    let r = vec![root.to_string(), file];
    assert(texts(r@) =~= seq![root@, "--chooser-file="@ + chooser@]);
    r
}

/// The arguments of lazygit, rooted at `root`.
pub fn lazygit_args(root: &str) -> (r: Vec<String>)
    ensures
        texts(r@) == seq!["--path"@, root@],
{
    let r = vec!["--path".to_string(), root.to_string()];
    assert(texts(r@) =~= seq!["--path"@, root@]);
    r
}

// ---- Editing -----------------------------------------------------------------

/// The editor that the user has chosen: that of `VISUAL`, else that of `EDITOR`,
/// else `vi`.
pub open spec fn chosen_editor(visual: Option<Seq<char>>, editor: Option<Seq<char>>) -> Seq<char> {
    match visual {
        Some(v) => v,
        None => match editor {
            Some(e) => e,
            None => "vi"@,
        },
    }
}

/// The command line that opens `file` in an editor, at `line` when known.
pub open spec fn editor_line(editor: Seq<char>, file: Seq<char>, line: Option<usize>) -> Seq<Seq<char>> {
    let w = words_of(editor);
    let program = if w.len() == 0 { seq!["vi"@] } else { w };
    match line {
        Some(n) => program + seq!["+"@ + decimal(n as nat), file],
        None => program + seq![file],
    }
}

/// The command line, program first, that opens `file` in the editor of the
/// variables `VISUAL` and `EDITOR`, at `line` when known.
pub fn edit_command(visual: Option<&str>, editor: Option<&str>, file: &str, line: Option<usize>) -> (r: Vec<
    String,
>)
    ensures
        texts(r@) == editor_line(
            chosen_editor(
                match visual {
                    Some(v) => Some(v@),
                    None => None,
                },
                match editor {
                    Some(e) => Some(e@),
                    None => None,
                },
            ),
            file@,
            line,
        ),
{
    let chosen = match visual {
        Some(v) => v,
        None => match editor {
            Some(e) => e,
            None => "vi",
        },
    };
    let chars = chars_of(chosen);
    let w = words(chars.as_slice());
    let mut r: Vec<String> = Vec::new();
    let mut i: usize = 0;
    while i < w.len()
        invariant
            i <= w@.len(),
            r@.len() == i,
            forall|j: int| 0 <= j < i ==> (#[trigger] r@[j])@ == w@[j]@,
        decreases w@.len() - i,
    {
        r.push(string_of(w[i]));
        i += 1;
    }
    assert(texts(r@) =~= words_of(chosen@));
    if r.len() == 0 {
        r.push("vi".to_string());
    }
    let ghost program = texts(r@);
    assert(words_of(chosen@).len() == 0 ==> program =~= seq!["vi"@]);
    if let Some(n) = line {
        let mut at = "+".to_string();
        push_text(&mut at, decimal_string(n).as_str());
        r.push(at);
    }
    r.push(file.to_string());
    assert(texts(r@) =~= editor_line(chosen@, file@, line));
    r
}

// ---- What reading and opening promise ----------------------------------------

/// A printed line leads to the file before its first colon, and to the line whose
/// number comes next, if there is one.
pub proof fn hits_are_read(path: Seq<char>, n: usize, rest: Seq<char>)
    requires
        path.len() > 0,
        forall|i: int| 0 <= i < path.len() ==> #[trigger] path[i] != ':',
    ensures
        hit_on(path) == Some(HitModel { path, line: None }),
        hit_on(path + seq![':'] + (decimal(n as nat) + seq![':'] + rest)) == Some(HitModel { path, line: Some(n) }),
        hit_on(path + seq![':'] + decimal(n as nat)) == Some(HitModel { path, line: Some(n) }),
        hit_on(seq![':'] + rest) is None,
{
    let d = decimal(n as nat);
    lemma_decimal_digits(n as nat);
    decimal_roundtrip(n);
    assert forall|i: int| 0 <= i < d.len() implies #[trigger] d[i] != ':' by {
        assert(is_digit(d[i]));
    }
    pieces_split(path, ':', d + seq![':'] + rest);
    pieces_split(path, ':', d);
    pieces_split(d, ':', rest);
    let none = Seq::<char>::empty();
    pieces_split(none, ':', rest);
    assert(none + seq![':'] + rest =~= seq![':'] + rest);
}

/// What was picked is the first line that is not blank, without the white space
/// around it.
pub proof fn first_line_is_found(lines: Seq<Seq<char>>, i: int)
    requires
        0 <= i <= lines.len(),
        forall|j: int| 0 <= j < i ==> trimmed(#[trigger] lines[j]).len() == 0,
        i < lines.len() ==> trimmed(lines[i]).len() > 0,
    ensures
        first_line(lines) == (if i < lines.len() { Some(trimmed(lines[i])) } else { None }),
    decreases i,
{
    if i > 0 {
        let rest = lines.skip(1);
        assert(trimmed(lines[0]).len() == 0);
        assert forall|j: int| 0 <= j < i - 1 implies trimmed(#[trigger] rest[j]).len() == 0 by {
            assert(rest[j] == lines[j + 1]);
        }
        first_line_is_found(rest, i - 1);
    }
}

/// A path is located below the root, with one slash between; an absolute path stays
/// as it is.
pub proof fn paths_are_located(root: Seq<char>, path: Seq<char>)
    requires
        path.len() > 0,
    ensures
        path[0] == '/' ==> in_root(root, path) == path,
        path[0] != '/' && root.len() > 0 && root.last() != '/' ==> in_root(root, path) == root + seq!['/'] + path,
        path[0] != '/' && root.len() > 0 && root.last() == '/' ==> in_root(root, path) == root + path,
{
    reveal_strlit("/");
    assert(path.take(1) =~= seq![path[0]]);
    assert("/"@ =~= seq!['/']);
    if path[0] != '/' {
        assert(seq![path[0]][0] != "/"@[0]);
        assert(root.push('/') + path =~= root + seq!['/'] + path);
    }
}

/// The editor is asked for the file, at the line if there is one: `+` and its number
/// come before the file. The words of the setting come first.
pub proof fn editor_opens_the_file(editor: Seq<char>, file: Seq<char>, n: usize)
    requires
        words_of(editor).len() > 0,
    ensures
        editor_line(editor, file, None) == words_of(editor).push(file),
        editor_line(editor, file, Some(n)) == words_of(editor).push(seq!['+'] + decimal(n as nat)).push(file),
{
    reveal_strlit("+");
    assert("+"@ =~= seq!['+']);
    let w = words_of(editor);
    assert(w + seq![file] =~= w.push(file));
    assert(w + seq!["+"@ + decimal(n as nat), file] =~= w.push(seq!['+'] + decimal(n as nat)).push(file));
}

}
